//! Which files of a repository are documents.
//!
//! A walk over the repository yields entries; a document is a file outside the
//! data directory whose relative path matches one of the configured globs.

use globset::{Glob, GlobSet, GlobSetBuilder};
use vstd::prelude::*;

use crate::sorting::Sortable;
use crate::{config, ordered, sorting, text};

verus! {

// ── globs ───────────────────────────────────────────────────────────────────
/// A `globset::GlobSetBuilder`: the globs of a set that is being put together.
#[verifier::external_type_specification]
#[verifier::external_body]
pub struct ExGlobSetBuilder(GlobSetBuilder);

/// A `globset::GlobSet`: globs that are matched together.
#[verifier::external_type_specification]
#[verifier::external_body]
pub struct ExGlobSet(GlobSet);

/// The globs added to a builder, in order.
pub uninterp spec fn builder_globs(builder: GlobSetBuilder) -> Seq<Seq<char>>;

/// The globs of a set, in order.
pub uninterp spec fn set_globs(set: GlobSet) -> Seq<Seq<char>>;

/// Why `globset::Glob::new` does not accept a pattern, as the text of its
/// error; none for a pattern that it accepts.
pub uninterp spec fn glob_rejection(pattern: Seq<char>) -> Option<Seq<char>>;

/// Whether a `globset::GlobSet` of one pattern matches a path.
pub uninterp spec fn glob_matches(pattern: Seq<char>, path: Seq<char>) -> bool;

/// A text without a backslash. On some systems a backslash separates the
/// components of a path, on others it is a character like any other and
/// escapes one in a glob; what a glob means is the same everywhere only
/// without it.
pub open spec fn portable(s: Seq<char>) -> bool {
    !s.contains('\\')
}

/// Whether all of these texts are portable.
pub open spec fn all_portable(globs: Seq<Seq<char>>) -> bool {
    forall|i: int| 0 <= i < globs.len() ==> portable(#[trigger] globs[i])
}

/// Whether one of the globs matches a path.
pub open spec fn any_glob(globs: Seq<Seq<char>>, path: Seq<char>) -> bool {
    exists|i: int| 0 <= i < globs.len() && glob_matches(#[trigger] globs[i], path)
}

/// An ASCII letter.
pub open spec fn letter(c: char) -> bool {
    'a' <= c <= 'z' || 'A' <= c <= 'Z'
}

/// Whether a glob asks for an extension anywhere in the tree: `**/*.` and one or
/// more letters.
pub open spec fn extension_glob(p: Seq<char>) -> bool {
    &&& p.len() > 5
    &&& p.take(5) == seq!['*', '*', '/', '*', '.']
    &&& forall|i: int| 5 <= i < p.len() ==> letter(#[trigger] p[i])
}

/// Whether all of these globs ask for an extension.
pub open spec fn all_extension_globs(globs: Seq<Seq<char>>) -> bool {
    forall|i: int| 0 <= i < globs.len() ==> extension_glob(#[trigger] globs[i])
}

/// Whether a text stands for itself in a glob: it is not empty and holds no
/// character of the syntax of globs. (A comma has a meaning only in braces, and a
/// closing bracket only behind an opening one.)
pub open spec fn plain(s: Seq<char>) -> bool {
    &&& s.len() > 0
    &&& forall|i: int|
        0 <= i < s.len() ==> {
            let c = #[trigger] s[i];
            c != '?' && c != '*' && c != '[' && c != '{' && c != '}' && c != '\\'
        }
}

/// Whether a text is `start` and a plain text behind it.
pub open spec fn then_plain(s: Seq<char>, start: Seq<char>) -> bool {
    start.len() <= s.len() && s.take(start.len() as int) == start && plain(
        s.skip(start.len() as int),
    )
}

/// Whether a glob is matched without a regular expression: a plain text, one
/// with `*` behind it, or one with `**/`, `*` or `**/*` before it. Behind a star,
/// a slash alone is not enough.
pub open spec fn direct_glob(p: Seq<char>) -> bool {
    ||| plain(p)
    ||| p.len() > 0 && p.last() == '*' && plain(p.drop_last())
    ||| then_plain(p, seq!['*', '*', '/'])
    ||| then_plain(p, seq!['*']) && p.skip(1) != seq!['/']
    ||| then_plain(p, seq!['*', '*', '/', '*']) && p.skip(4) != seq!['/']
}

/// Whether all of these globs are matched without a regular expression.
pub open spec fn all_direct_globs(globs: Seq<Seq<char>>) -> bool {
    forall|i: int| 0 <= i < globs.len() ==> direct_glob(#[trigger] globs[i])
}

/// A glob that asks for an extension is matched without a regular expression.
pub proof fn law_extension_globs_are_direct(globs: Seq<Seq<char>>)
    requires
        all_extension_globs(globs),
    ensures
        all_direct_globs(globs),
        all_portable(globs),
{
    assert forall|i: int| 0 <= i < globs.len() implies direct_glob(#[trigger] globs[i]) && portable(
        globs[i],
    ) by {
        let p = globs[i];
        assert(extension_glob(p));
        let start = p.take(5);
        assert forall|k: int| 0 <= k < 5 implies p[k] == start[k] by {
        }
        assert(p.take(4) =~= seq!['*', '*', '/', '*']);
        assert forall|k: int| 0 <= k < p.skip(4).len() implies {
            let c = #[trigger] p.skip(4)[k];
            c != '?' && c != '*' && c != '[' && c != '{' && c != '}' && c != '\\'
        } by {
            assert(p.skip(4)[k] == p[k + 4]);
            if k > 0 {
                assert(letter(p[k + 4]));
            }
        }
        assert(p.skip(4).len() > 1);
        if p.contains('\\') {
            let k = p.index_of('\\');
            if k >= 5 {
                assert(letter(p[k]));
            }
        }
    }
}

/// Whether a text ends with another.
pub open spec fn ends_with(s: Seq<char>, end: Seq<char>) -> bool {
    end.len() <= s.len() && s.skip(s.len() - end.len()) == end
}

/// Whether a path has one of the extensions that the globs ask for.
pub open spec fn any_extension(globs: Seq<Seq<char>>, path: Seq<char>) -> bool {
    exists|i: int| 0 <= i < globs.len() && ends_with(path, (#[trigger] globs[i]).skip(4))
}

/// `globset::GlobSetBuilder::new`: a builder without globs.
pub assume_specification[ GlobSetBuilder::new ]() -> (r: GlobSetBuilder)
    ensures
        builder_globs(r) == Seq::<Seq<char>>::empty(),
;

/// `globset::Glob::new`, then `GlobSetBuilder::add`: parses a pattern and adds
/// it behind the others; a pattern that does not parse is not added. The
/// grammar of patterns is named; a pattern that is matched without a regular
/// expression parses. It depends on the system where the pattern holds a
/// backslash: then nothing is said of which case occurs.
#[verifier::external_body]
fn add_glob(builder: &mut GlobSetBuilder, pattern: &str) -> (r: Result<(), String>)
    ensures
        r is Ok ==> builder_globs(*final(builder)) == builder_globs(*old(builder)).push(pattern@),
        r is Err ==> builder_globs(*final(builder)) == builder_globs(*old(builder)),
        portable(pattern@) ==> (r is Ok <==> glob_rejection(pattern@) is None),
        portable(pattern@) ==> (r matches Err(e) ==> glob_rejection(pattern@) == Some(e@)),
        direct_glob(pattern@) ==> r is Ok,
{
    let glob = Glob::new(pattern).map_err(|e| e.to_string())?;
    builder.add(glob);
    Ok(())
}

/// `globset::GlobSetBuilder::build`: the set of the globs added so far. It fails
/// only where the compiled globs exceed a size limit, which depends on the
/// machine: when that is, and the text of the error, is not said. Globs that are
/// matched without a regular expression are not compiled to one, so that a set
/// of them, be it empty, does not fail.
#[verifier::external_body]
fn build_globs(builder: &GlobSetBuilder) -> (r: Result<GlobSet, String>)
    ensures
        r matches Ok(set) ==> set_globs(set) == builder_globs(*builder),
        all_direct_globs(builder_globs(*builder)) ==> r is Ok,
{
    builder.build().map_err(|e| e.to_string())
}

/// `globset::GlobSet::is_match`: whether any glob of the set matches the path.
/// The meaning of a glob is named, and said of globs that ask for an extension:
/// they match the paths that end with it. That of other globs depends on the
/// system where the glob or the path holds a backslash.
#[verifier::external_body]
fn set_matches(set: &GlobSet, path: &str) -> (r: bool)
    ensures
        all_portable(set_globs(*set)) && portable(path@) ==> r == (exists|i: int|
            0 <= i < set_globs(*set).len() && glob_matches(#[trigger] set_globs(*set)[i], path@)),
        all_extension_globs(set_globs(*set)) ==> r == (exists|i: int|
            0 <= i < set_globs(*set).len() && ends_with(
                path@,
                (#[trigger] set_globs(*set)[i]).skip(4),
            )),
        set_globs(*set).len() == 0 ==> !r,
{
    set.is_match(path)
}

/// The globs cannot be used.
#[derive(Debug, Clone, PartialEq, Eq)]
pub struct GlobError {
    pub message: String,
}

/// Why a list of globs is not accepted: the error of the first that is not.
pub open spec fn first_rejection(globs: Seq<Seq<char>>) -> Option<Seq<char>>
    decreases globs.len(),
{
    if globs.len() == 0 {
        None
    } else {
        match first_rejection(globs.drop_last()) {
            Some(e) => Some(e),
            None => glob_rejection(globs.last()),
        }
    }
}

/// A builder that holds these globs, or the error of the first that is not
/// accepted.
pub fn glob_builder(globs: &Vec<String>) -> (r: Result<GlobSetBuilder, GlobError>)
    ensures
        r matches Ok(builder) ==> builder_globs(builder) == text::texts(globs@),
        all_portable(text::texts(globs@)) ==> (r is Ok <==> first_rejection(
            text::texts(globs@),
        ) is None),
        all_portable(text::texts(globs@)) ==> (r matches Err(e) ==> first_rejection(
            text::texts(globs@),
        ) == Some(e.message@)),
        all_direct_globs(text::texts(globs@)) ==> r is Ok,
{
    let ghost all = text::texts(globs@);
    let mut builder = GlobSetBuilder::new();
    let mut i: usize = 0;
    assert(all.take(0) =~= Seq::empty());
    while i < globs.len()
        invariant
            i <= globs@.len(),
            all == text::texts(globs@),
            builder_globs(builder) == all.take(i as int),
            all_portable(all) ==> first_rejection(all.take(i as int)) is None,
        decreases globs@.len() - i,
    {
        assert(all[i as int] == globs@[i as int]@);
        assert(all.take(i + 1).drop_last() =~= all.take(i as int));
        assert(all.take(i + 1) =~= all.take(i as int).push(all[i as int]));
        match add_glob(&mut builder, globs[i].as_str()) {
            Ok(_) => {},
            Err(message) => {
                proof {
                    if all_portable(all) {
                        lemma_rejection_stays(all, i + 1);
                    }
                }
                return Err(GlobError { message });
            },
        }
        i = i + 1;
    }
    assert(all.take(i as int) =~= all);
    Ok(builder)
}

/// The set of these globs.
fn compile_globs(globs: &Vec<String>) -> (r: Result<GlobSet, GlobError>)
    ensures
        r matches Ok(set) ==> set_globs(set) == text::texts(globs@),
        all_portable(text::texts(globs@)) ==> match first_rejection(text::texts(globs@)) {
            Some(e) => r matches Err(g) && g.message@ == e,
            None => true,
        },
        all_direct_globs(text::texts(globs@)) ==> r is Ok,
{
    let builder = match glob_builder(globs) {
        Ok(builder) => builder,
        Err(e) => { return Err(e); },
    };
    match build_globs(&builder) {
        Ok(set) => Ok(set),
        Err(message) => Err(GlobError { message }),
    }
}

proof fn lemma_rejection_stays(globs: Seq<Seq<char>>, n: int)
    requires
        0 <= n <= globs.len(),
        first_rejection(globs.take(n)) is Some,
    ensures
        first_rejection(globs) == first_rejection(globs.take(n)),
    decreases globs.len(),
{
    if n < globs.len() {
        assert(globs.drop_last().take(n) =~= globs.take(n));
        lemma_rejection_stays(globs.drop_last(), n);
    } else {
        assert(globs.take(n) =~= globs);
    }
}

// ── documents ───────────────────────────────────────────────────────────────
/// An entry of a walk over the repository.
#[derive(Debug, Clone, PartialEq, Eq)]
pub struct WalkEntry {
    /// The number of the entry in the walk, by which its absolute path is
    /// found again.
    pub abs: usize,
    pub is_file: bool,
    /// The components of the path relative to the repository root; none for an
    /// entry that is not below it.
    pub components: Option<Vec<String>>,
}

/// What a [`WalkEntry`] holds.
pub struct WalkEntryView {
    pub abs: nat,
    pub is_file: bool,
    pub components: Option<Seq<Seq<char>>>,
}

impl View for WalkEntry {
    type V = WalkEntryView;

    open spec fn view(&self) -> WalkEntryView {
        WalkEntryView {
            abs: self.abs as nat,
            is_file: self.is_file,
            components: match self.components {
                Some(c) => Some(text::texts(c@)),
                None => None,
            },
        }
    }
}

/// The views of a sequence of entries.
pub open spec fn entry_views(v: Seq<WalkEntry>) -> Seq<WalkEntryView> {
    v.map_values(|e: WalkEntry| e@)
}

/// A documentation file: its absolute path, by the number of its entry, and its
/// path relative to the repository root, by which the manifest is keyed.
#[derive(Debug, Clone, PartialEq, Eq)]
pub struct DocFile {
    pub abs: usize,
    pub relpath: String,
}

impl View for DocFile {
    type V = (nat, Seq<char>);

    open spec fn view(&self) -> (nat, Seq<char>) {
        (self.abs as nat, self.relpath@)
    }
}

/// The views of a sequence of documents.
pub open spec fn doc_views(v: Seq<DocFile>) -> Seq<(nat, Seq<char>)> {
    v.map_values(|d: DocFile| d@)
}

/// The relative path of an entry that may be a document: a file below the
/// repository root and outside its data directory.
pub open spec fn candidate(e: WalkEntryView) -> Option<Seq<char>> {
    match e.components {
        Some(parts) => if e.is_file && !(parts.len() > 0 && parts[0] == ".corpus"@) {
            Some(text::joined(parts, "/"@))
        } else {
            None
        },
        None => None,
    }
}

fn candidate_path(e: &WalkEntry) -> (r: Option<String>)
    ensures
        r is Some <==> candidate(e@) is Some,
        r matches Some(p) ==> candidate(e@) == Some(p@),
{
    match &e.components {
        Some(parts) => {
            assert(parts@.len() > 0 ==> text::texts(parts@)[0] == parts@[0]@);
            if !e.is_file || (parts.len() > 0 && text::text_eq(parts[0].as_str(), ".corpus")) {
                None
            } else {
                Some(text::join(parts, "/"))
            }
        },
        None => None,
    }
}

/// A relative path as the manifest writes it: with a slash in place of every
/// backslash.
pub open spec fn relpath_of(path: Seq<char>) -> Seq<char> {
    path.map_values(
        |c: char|
            if c == '\\' {
                '/'
            } else {
                c
            },
    )
}

fn to_relpath(path: &str) -> (r: String)
    ensures
        r@ == relpath_of(path@),
{
    let mut r = String::new();
    for c in it: path.chars()
        invariant
            it.seq() == path@,
            r@ == relpath_of(path@.take(it.index())),
    {
        let plain: char = if c == '\\' {
            '/'
        } else {
            c
        };
        r.push(plain);
        assert(r@ =~= relpath_of(path@.take(it.index() + 1)));
    }
    assert(path@.take(path@.len() as int) =~= path@);
    r
}

/// The documents among the entries, `matched` saying of which the path matches
/// a glob.
pub open spec fn selected(entries: Seq<WalkEntryView>, matched: Seq<bool>) -> Seq<
    (nat, Seq<char>),
>
    decreases entries.len(),
{
    if entries.len() == 0 {
        Seq::empty()
    } else {
        let front = selected(entries.drop_last(), matched);
        match candidate(entries.last()) {
            Some(path) => if matched[entries.len() - 1] {
                front.push((entries.last().abs, relpath_of(path)))
            } else {
                front
            },
            None => front,
        }
    }
}

/// The order of documents: by relative path.
pub open spec fn path_order() -> spec_fn((nat, Seq<char>), (nat, Seq<char>)) -> bool {
    |a: (nat, Seq<char>), b: (nat, Seq<char>)| ordered::text_lt(a.1, b.1)
}

/// `s` with one element in place of every run of equal ones.
pub open spec fn deduped(s: Seq<(nat, Seq<char>)>) -> Seq<(nat, Seq<char>)>
    decreases s.len(),
{
    if s.len() < 2 {
        s
    } else if s[s.len() - 2] == s.last() {
        deduped(s.drop_last())
    } else {
        deduped(s.drop_last()).push(s.last())
    }
}

/// The documents of a walk, in the order of their relative paths.
pub open spec fn documents(entries: Seq<WalkEntryView>, matched: Seq<bool>) -> Seq<
    (nat, Seq<char>),
> {
    deduped(sorting::stable_sorted(selected(entries, matched), path_order()))
}

impl Sortable for DocFile {
    open spec fn comes_before(self, other: DocFile) -> bool {
        ordered::text_lt(self.relpath@, other.relpath@)
    }

    proof fn asymmetric(x: DocFile, y: DocFile) {
        if y.comes_before(x) {
            ordered::lemma_text_transitive(x.relpath@, y.relpath@, x.relpath@);
            ordered::lemma_text_irreflexive(x.relpath@);
        }
    }

    proof fn negatively_transitive(x: DocFile, y: DocFile, z: DocFile) {
        ordered::lemma_text_total(x.relpath@, y.relpath@);
        if y.comes_before(x) {
            ordered::lemma_text_transitive(y.relpath@, x.relpath@, z.relpath@);
        }
    }

    fn is_before(&self, other: &DocFile) -> (r: bool) {
        ordered::text_less(self.relpath.as_str(), other.relpath.as_str())
    }
}

fn dedup(docs: Vec<DocFile>) -> (r: Vec<DocFile>)
    ensures
        doc_views(r@) == deduped(doc_views(docs@)),
{
    let ghost all = doc_views(docs@);
    let mut out: Vec<DocFile> = Vec::new();
    let mut i: usize = 0;
    assert(doc_views(out@) =~= deduped(all.take(0)));
    while i < docs.len()
        invariant
            i <= docs@.len(),
            all == doc_views(docs@),
            doc_views(out@) == deduped(all.take(i as int)),
        decreases docs@.len() - i,
    {
        let ghost before = doc_views(out@);
        let ghost next = all.take(i + 1);
        assert(next.drop_last() =~= all.take(i as int));
        assert(next.last() == docs@[i as int]@);
        let repeated = i > 0 && docs[i].abs == docs[i - 1].abs && docs[i].relpath == docs[i
            - 1].relpath;
        assert(i > 0 ==> next[i - 1] == docs@[i - 1]@);
        if !repeated {
            let doc = DocFile { abs: docs[i].abs, relpath: docs[i].relpath.clone() };
            out.push(doc);
            assert(doc_views(out@) =~= before.push(doc@));
            if i == 0 {
                assert(deduped(all.take(0)) =~= Seq::empty());
                assert(doc_views(out@) =~= next);
            }
        }
        i = i + 1;
    }
    assert(all.take(i as int) =~= all);
    out
}

/// The documents of a walk, `matched` saying of which entries the path matches
/// a glob: sorted by relative path, without repetition.
pub fn documents_of(entries: &Vec<WalkEntry>, matched: &Vec<bool>) -> (r: Vec<DocFile>)
    requires
        matched@.len() == entries@.len(),
    ensures
        doc_views(r@) == documents(entry_views(entries@), matched@),
{
    let ghost all = entry_views(entries@);
    let mut out: Vec<DocFile> = Vec::new();
    let mut i: usize = 0;
    assert(doc_views(out@) =~= selected(all.take(0), matched@));
    while i < entries.len()
        invariant
            i <= entries@.len(),
            matched@.len() == entries@.len(),
            all == entry_views(entries@),
            doc_views(out@) == selected(all.take(i as int), matched@),
        decreases entries@.len() - i,
    {
        let ghost before = doc_views(out@);
        assert(all.take(i + 1).drop_last() =~= all.take(i as int));
        assert(all.take(i + 1).last() == entries@[i as int]@);
        if let Some(path) = candidate_path(&entries[i]) {
            if matched[i] {
                let doc = DocFile { abs: entries[i].abs, relpath: to_relpath(path.as_str()) };
                out.push(doc);
                assert(doc_views(out@) =~= before.push(doc@));
            }
        }
        i = i + 1;
    }
    assert(all.take(i as int) =~= all);
    proof {
        assert forall|x: DocFile, y: DocFile|
            #[trigger] sorting::order::<DocFile>()(x, y) == path_order()(x@, y@) by {
        }
        sorting::lemma_stable_sorted_map(
            out@,
            |d: DocFile| d@,
            sorting::order::<DocFile>(),
            path_order(),
        );
    }
    dedup(sorting::stable_sort(out))
}

/// Whether `matched` says of every entry that may be a document whether one of
/// the globs matches its path: globs that ask for an extension match the paths
/// that have it. Of other globs, nothing is asked where a glob or the path is not
/// portable.
pub open spec fn match_results(
    entries: Seq<WalkEntryView>,
    globs: Seq<Seq<char>>,
    matched: Seq<bool>,
) -> bool {
    &&& matched.len() == entries.len()
    &&& forall|i: int|
        0 <= i < entries.len() ==> (candidate(#[trigger] entries[i]) matches Some(path)
            ==> all_portable(globs) && portable(path) ==> matched[i] == any_glob(globs, path))
    &&& all_extension_globs(globs) ==> forall|i: int|
        0 <= i < entries.len() ==> (candidate(#[trigger] entries[i]) matches Some(path)
            ==> matched[i] == any_extension(globs, path))
    &&& globs.len() == 0 ==> forall|i: int| 0 <= i < entries.len() ==> !#[trigger] matched[i]
}

/// The documentation files among the entries of a walk: those that match any of
/// the globs, sorted by relative path.
pub fn discover(entries: &Vec<WalkEntry>, globs: &Vec<String>) -> (r: Result<
    Vec<DocFile>,
    GlobError,
>)
    ensures
        r matches Ok(docs) ==> exists|matched: Seq<bool>| #[trigger]
            match_results(entry_views(entries@), text::texts(globs@), matched) && doc_views(docs@)
                == documents(entry_views(entries@), matched),
        all_portable(text::texts(globs@)) ==> match first_rejection(text::texts(globs@)) {
            Some(e) => r matches Err(g) && g.message@ == e,
            None => true,
        },
        all_direct_globs(text::texts(globs@)) ==> r is Ok,
        all_extension_globs(text::texts(globs@)) ==> r is Ok,
{
    proof {
        if all_extension_globs(text::texts(globs@)) {
            law_extension_globs_are_direct(text::texts(globs@));
        }
    }
    let set = match compile_globs(globs) {
        Ok(set) => set,
        Err(e) => { return Err(e); },
    };
    let ghost all = entry_views(entries@);
    let mut matched: Vec<bool> = Vec::new();
    let mut i: usize = 0;
    while i < entries.len()
        invariant
            i <= entries@.len(),
            all == entry_views(entries@),
            set_globs(set) == text::texts(globs@),
            matched@.len() == i,
            match_results(all.take(i as int), text::texts(globs@), matched@),
        decreases entries@.len() - i,
    {
        let ghost before = matched@;
        let hit = match candidate_path(&entries[i]) {
            Some(path) => set_matches(&set, path.as_str()),
            None => false,
        };
        matched.push(hit);
        assert(all.take(i + 1) =~= all.take(i as int).push(entries@[i as int]@));
        assert(match_results(all.take(i + 1), text::texts(globs@), matched@)) by {
            assert forall|j: int| 0 <= j < i + 1 implies (candidate(
                #[trigger] all.take(i + 1)[j],
            ) matches Some(path) ==> all_portable(text::texts(globs@)) && portable(path)
                ==> matched@[j] == any_glob(text::texts(globs@), path)) by {
                if j < i {
                    assert(all.take(i + 1)[j] == all.take(i as int)[j]);
                }
            }
            if all_extension_globs(text::texts(globs@)) {
                assert forall|j: int| 0 <= j < i + 1 implies (candidate(
                    #[trigger] all.take(i + 1)[j],
                ) matches Some(path) ==> matched@[j] == any_extension(
                    text::texts(globs@),
                    path,
                )) by {
                    if j < i {
                        assert(all.take(i + 1)[j] == all.take(i as int)[j]);
                    }
                }
            }
            if globs@.len() == 0 {
                assert forall|j: int| 0 <= j < i + 1 implies !#[trigger] matched@[j] by {
                    if j < i {
                        assert(!before[j]);
                    }
                }
            }
        }
        i = i + 1;
    }
    assert(all.take(i as int) =~= all);
    Ok(documents_of(entries, &matched))
}

/// The relative paths of the files that a walk found outside the data
/// directory, whether or not a glob matches them.
pub open spec fn present(entries: Seq<WalkEntryView>) -> Seq<Seq<char>>
    decreases entries.len(),
{
    if entries.len() == 0 {
        Seq::empty()
    } else {
        let front = present(entries.drop_last());
        match candidate(entries.last()) {
            Some(path) => front.push(relpath_of(path)),
            None => front,
        }
    }
}

/// The relative paths of the files that are still in the repository, by the
/// entries of a walk. A file that an index run does not match is among them: it
/// has not vanished.
pub fn present_files(entries: &Vec<WalkEntry>) -> (r: Vec<String>)
    ensures
        text::texts(r@) == present(entry_views(entries@)),
{
    let ghost all = entry_views(entries@);
    let mut r: Vec<String> = Vec::new();
    let mut i: usize = 0;
    assert(text::texts(r@) =~= present(all.take(0)));
    while i < entries.len()
        invariant
            i <= entries@.len(),
            all == entry_views(entries@),
            text::texts(r@) == present(all.take(i as int)),
        decreases entries@.len() - i,
    {
        let ghost before = text::texts(r@);
        assert(all.take(i + 1).drop_last() =~= all.take(i as int));
        assert(all.take(i + 1).last() == entries@[i as int]@);
        if let Some(path) = candidate_path(&entries[i]) {
            let relpath = to_relpath(path.as_str());
            r.push(relpath);
            assert(text::texts(r@) =~= before.push(relpath@));
        }
        i = i + 1;
    }
    assert(all.take(i as int) =~= all);
    r
}

// ── what holds of every walk ────────────────────────────────────────────────
proof fn lemma_deduped(s: Seq<(nat, Seq<char>)>)
    requires
        sorting::in_order(s, path_order()),
    ensures
        sorting::in_order(deduped(s), path_order()),
        forall|d: (nat, Seq<char>)| #[trigger] deduped(s).contains(d) <==> s.contains(d),
    decreases s.len(),
{
    let before = path_order();
    if s.len() >= 2 {
        let front = s.drop_last();
        assert forall|i: int, j: int| 0 <= i < j < front.len() implies !before(
            #[trigger] front[j],
            #[trigger] front[i],
        ) by {
            assert(!before(s[j], s[i]));
        }
        lemma_deduped(front);
        let r = deduped(s);
        let f = deduped(front);
        assert forall|d: (nat, Seq<char>)| #[trigger] r.contains(d) <==> s.contains(d) by {
            if s.contains(d) {
                let k = s.index_of(d);
                if k < front.len() {
                    assert(front[k] == d);
                    assert(front.contains(d));
                    assert(f.contains(d));
                    let m = f.index_of(d);
                    assert(r[m] == d);
                } else if s[s.len() - 2] == s.last() {
                    assert(front[s.len() - 2] == d);
                    assert(front.contains(d));
                } else {
                    assert(r[r.len() - 1] == d);
                }
            }
            if r.contains(d) {
                let m = r.index_of(d);
                if m < f.len() {
                    assert(f[m] == d);
                    assert(f.contains(d));
                    assert(front.contains(d));
                    let k = front.index_of(d);
                    assert(s[k] == d);
                } else {
                    assert(s[s.len() - 1] == d);
                }
            }
        }
        assert forall|i: int, j: int| 0 <= i < j < r.len() implies !before(
            #[trigger] r[j],
            #[trigger] r[i],
        ) by {
            if j < f.len() {
                assert(!before(f[j], f[i]));
            } else {
                assert(f.contains(f[i]));
                assert(front.contains(f[i]));
                let k = front.index_of(f[i]);
                assert(front[k] == s[k]);
                assert(!before(s[s.len() - 1], s[k]));
            }
        }
    }
}

proof fn lemma_selected(entries: Seq<WalkEntryView>, matched: Seq<bool>, d: (nat, Seq<char>))
    ensures
        selected(entries, matched).contains(d) <==> exists|i: int|
            0 <= i < entries.len() && matched[i] && candidate(#[trigger] entries[i]) is Some && d
                == (entries[i].abs, relpath_of(candidate(entries[i])->0)),
    decreases entries.len(),
{
    if entries.len() > 0 {
        let front = entries.drop_last();
        lemma_selected(front, matched, d);
        let f = selected(front, matched);
        let s = selected(entries, matched);
        if s.contains(d) {
            let k = s.index_of(d);
            if k < f.len() {
                assert(f[k] == d);
                let i = choose|i: int|
                    0 <= i < front.len() && matched[i] && candidate(#[trigger] front[i]) is Some
                        && d == (front[i].abs, relpath_of(candidate(front[i])->0));
                assert(entries[i] == front[i]);
            } else {
                assert(entries[entries.len() - 1] == entries.last());
            }
        }
        if exists|i: int|
            0 <= i < entries.len() && matched[i] && candidate(#[trigger] entries[i]) is Some && d
                == (entries[i].abs, relpath_of(candidate(entries[i])->0)) {
            let i = choose|i: int|
                0 <= i < entries.len() && matched[i] && candidate(#[trigger] entries[i]) is Some
                    && d == (entries[i].abs, relpath_of(candidate(entries[i])->0));
            if i < front.len() {
                assert(front[i] == entries[i]);
                assert(f.contains(d));
                let k = f.index_of(d);
                assert(s[k] == d);
            } else {
                assert(s[s.len() - 1] == d);
            }
        }
    }
}

proof fn lemma_path_order()
    ensures
        sorting::weak_order(path_order()),
{
    let before = path_order();
    assert forall|x: (nat, Seq<char>), y: (nat, Seq<char>)| #[trigger]
        before(x, y) implies !before(y, x) by {
        if before(y, x) {
            ordered::lemma_text_transitive(x.1, y.1, x.1);
            ordered::lemma_text_irreflexive(x.1);
        }
    }
    assert forall|x: (nat, Seq<char>), y: (nat, Seq<char>), z: (nat, Seq<char>)| #[trigger]
        before(x, z) implies #[trigger] before(x, y) || before(y, z) by {
        ordered::lemma_text_total(x.1, y.1);
        if before(y, x) {
            ordered::lemma_text_transitive(y.1, x.1, z.1);
        }
    }
}

/// The documents of a walk are in the order of their relative paths, and are
/// exactly the entries that may be documents and match: every one of them, and
/// nothing from the data directory.
pub proof fn law_documents(
    entries: Seq<WalkEntryView>,
    matched: Seq<bool>,
    d: (nat, Seq<char>),
)
    ensures
        forall|i: int, j: int|
            0 <= i < j < documents(entries, matched).len() ==> !ordered::text_lt(
                (#[trigger] documents(entries, matched)[j]).1,
                (#[trigger] documents(entries, matched)[i]).1,
            ),
        documents(entries, matched).contains(d) <==> exists|i: int|
            0 <= i < entries.len() && matched[i] && candidate(#[trigger] entries[i]) is Some && d
                == (entries[i].abs, relpath_of(candidate(entries[i])->0)),
{
    broadcast use vstd::seq_lib::group_to_multiset_ensures;

    let before = path_order();
    let s = selected(entries, matched);
    let sorted = sorting::stable_sorted(s, before);
    lemma_path_order();
    sorting::lemma_stable_sorted(s, before);
    lemma_deduped(sorted);
    lemma_selected(entries, matched, d);
    assert(sorted.contains(d) <==> s.contains(d)) by {
        assert(sorted.to_multiset().count(d) == s.to_multiset().count(d));
    }
    let docs = documents(entries, matched);
    assert forall|i: int, j: int| 0 <= i < j < docs.len() implies !ordered::text_lt(
        (#[trigger] docs[j]).1,
        (#[trigger] docs[i]).1,
    ) by {
        assert(!before(docs[j], docs[i]));
    }
}

proof fn lemma_present(entries: Seq<WalkEntryView>, i: int)
    requires
        0 <= i < entries.len(),
        candidate(entries[i]) is Some,
    ensures
        present(entries).contains(relpath_of(candidate(entries[i])->0)),
    decreases entries.len(),
{
    let path = relpath_of(candidate(entries[i])->0);
    let front = present(entries.drop_last());
    let all = present(entries);
    if i < entries.len() - 1 {
        lemma_present(entries.drop_last(), i);
        let k = front.index_of(path);
        assert(all[k] == path);
    } else {
        assert(all[front.len() as int] == path);
    }
}

/// Every document is a file that is still there.
pub proof fn law_documents_are_present(
    entries: Seq<WalkEntryView>,
    matched: Seq<bool>,
    d: (nat, Seq<char>),
)
    requires
        documents(entries, matched).contains(d),
    ensures
        present(entries).contains(d.1),
{
    law_documents(entries, matched, d);
    let i = choose|i: int|
        0 <= i < entries.len() && matched[i] && candidate(#[trigger] entries[i]) is Some && d == (
        entries[i].abs,
        relpath_of(candidate(entries[i])->0),
        );
    lemma_present(entries, i);
}

/// Whether no two entries that may be documents have the same relative path.
pub open spec fn distinct_entries(entries: Seq<WalkEntryView>) -> bool {
    forall|i: int, j: int|
        0 <= i < j < entries.len() && candidate(#[trigger] entries[i]) is Some && candidate(
            #[trigger] entries[j],
        ) is Some ==> relpath_of(candidate(entries[i])->0) != relpath_of(
            candidate(entries[j])->0,
        )
}

proof fn lemma_selected_distinct(entries: Seq<WalkEntryView>, matched: Seq<bool>)
    requires
        distinct_entries(entries),
    ensures
        forall|i: int, j: int|
            0 <= i < j < selected(entries, matched).len() ==> (#[trigger] selected(
                entries,
                matched,
            )[i]).1 != (#[trigger] selected(entries, matched)[j]).1,
    decreases entries.len(),
{
    if entries.len() > 0 {
        let front = entries.drop_last();
        assert forall|i: int, j: int|
            0 <= i < j < front.len() && candidate(#[trigger] front[i]) is Some && candidate(
                #[trigger] front[j],
            ) is Some implies relpath_of(candidate(front[i])->0) != relpath_of(
            candidate(front[j])->0,
        ) by {
            assert(front[i] == entries[i]);
            assert(front[j] == entries[j]);
        }
        lemma_selected_distinct(front, matched);
        let f = selected(front, matched);
        let s = selected(entries, matched);
        assert forall|i: int, j: int| 0 <= i < j < s.len() implies (#[trigger] s[i]).1 != (
        #[trigger] s[j]).1 by {
            if j < f.len() {
                assert(s[i] == f[i]);
                assert(s[j] == f[j]);
            } else {
                lemma_selected(front, matched, f[i]);
                assert(f.contains(f[i]));
                let k = choose|k: int|
                    0 <= k < front.len() && matched[k] && candidate(#[trigger] front[k]) is Some
                        && f[i] == (front[k].abs, relpath_of(candidate(front[k])->0));
                assert(front[k] == entries[k]);
                assert(entries[entries.len() - 1] == entries.last());
            }
        }
    }
}

proof fn lemma_deduped_distinct(s: Seq<(nat, Seq<char>)>)
    requires
        s.no_duplicates(),
    ensures
        deduped(s) == s,
    decreases s.len(),
{
    if s.len() >= 2 {
        lemma_deduped_distinct(s.drop_last());
        assert(s[s.len() - 2] != s[s.len() - 1]);
        assert(s.drop_last().push(s.last()) =~= s);
    }
}

/// Where no two entries have the same relative path, the paths of the documents
/// grow strictly: each is listed once.
pub proof fn law_documents_ascend(entries: Seq<WalkEntryView>, matched: Seq<bool>)
    requires
        distinct_entries(entries),
    ensures
        ordered::ascending(documents(entries, matched).map_values(|d: (nat, Seq<char>)| d.1)),
{
    broadcast use vstd::seq_lib::group_to_multiset_ensures;

    let before = path_order();
    let s = selected(entries, matched);
    let sorted = sorting::stable_sorted(s, before);
    lemma_path_order();
    sorting::lemma_stable_sorted(s, before);
    lemma_selected_distinct(entries, matched);
    assert(s.no_duplicates());
    s.lemma_multiset_has_no_duplicates();
    sorted.lemma_multiset_has_no_duplicates_conv();
    lemma_deduped_distinct(sorted);
    let docs = documents(entries, matched);
    let paths = docs.map_values(|d: (nat, Seq<char>)| d.1);
    assert forall|i: int, j: int| 0 <= i < j < paths.len() implies ordered::text_lt(
        #[trigger] paths[i],
        #[trigger] paths[j],
    ) by {
        assert(!before(docs[j], docs[i]));
        ordered::lemma_text_total(paths[i], paths[j]);
        if paths[i] == paths[j] {
            assert(sorted.to_multiset().count(docs[i]) > 0);
            assert(sorted.to_multiset().count(docs[j]) > 0);
            assert(s.contains(docs[i]));
            assert(s.contains(docs[j]));
            let a = s.index_of(docs[i]);
            let b = s.index_of(docs[j]);
            assert(s[a].1 == s[b].1);
            assert(docs[i] != docs[j]);
        }
    }
}

/// The views of entries and documents hold their fields, one for one.
pub proof fn law_walk_views(entries: Seq<WalkEntry>, docs: Seq<DocFile>)
    ensures
        entry_views(entries).len() == entries.len(),
        forall|i: int|
            #![trigger entry_views(entries)[i]]
            0 <= i < entries.len() ==> entry_views(entries)[i].abs == entries[i].abs
                && entry_views(entries)[i].is_file == entries[i].is_file && (
            entries[i].components is None <==> entry_views(entries)[i].components is None),
        forall|i: int, j: int|
            0 <= i < entries.len() && entries[i].components is Some && 0 <= j
                < entries[i].components->0@.len() ==> entry_views(entries)[i].components->0.len()
                == entries[i].components->0@.len() && #[trigger] entry_views(
                entries,
            )[i].components->0[j] == entries[i].components->0@[j]@,
        doc_views(docs).len() == docs.len(),
        forall|i: int|
            #![trigger doc_views(docs)[i]]
            0 <= i < docs.len() ==> doc_views(docs)[i].0 == docs[i].abs && doc_views(docs)[i].1
                == docs[i].relpath@,
{
}

/// A relative path has its characters one for one: a slash for a backslash, and
/// any other as it is. A portable path stays as it is.
pub proof fn law_relpath(path: Seq<char>)
    ensures
        relpath_of(path).len() == path.len(),
        forall|i: int|
            #![trigger relpath_of(path)[i]]
            0 <= i < path.len() ==> relpath_of(path)[i] == if path[i] == '\\' {
                '/'
            } else {
                path[i]
            },
        portable(path) ==> relpath_of(path) == path,
{
    if portable(path) {
        assert forall|i: int| 0 <= i < path.len() implies relpath_of(path)[i] == path[i] by {
            assert(path.contains(path[i]));
        }
        assert(relpath_of(path) =~= path);
    }
}

/// Every file below the repository root may be a document, however deep it
/// lies, unless its path starts in the data directory; its path is its
/// components with slashes between them. Nothing else may be one.
pub proof fn law_candidates(e: WalkEntryView)
    ensures
        match e.components {
            Some(parts) => {
                let path = text::joined(parts, "/"@);
                &&& e.is_file && parts.len() == 0 ==> candidate(e) == Some(path)
                &&& e.is_file && parts.len() > 0 && parts[0] != ".corpus"@ ==> candidate(e) == Some(
                    path,
                )
                &&& parts.len() > 0 && parts[0] == ".corpus"@ ==> candidate(e) is None
                &&& !e.is_file ==> candidate(e) is None
            },
            None => candidate(e) is None,
        },
{
}

/// Every file below the repository root that does not start in the data
/// directory, however deep it lies, is a document with its path where a glob
/// matches that path.
pub proof fn law_matching_files_are_documents(
    entries: Seq<WalkEntryView>,
    globs: Seq<Seq<char>>,
    matched: Seq<bool>,
    i: int,
    g: int,
)
    requires
        match_results(entries, globs, matched),
        0 <= i < entries.len(),
        entries[i].is_file,
        entries[i].components is Some,
        entries[i].components->0.len() > 0 ==> entries[i].components->0[0] != ".corpus"@,
        0 <= g < globs.len(),
    ensures
        ({
            let path = text::joined(entries[i].components->0, "/"@);
            &&& all_portable(globs) && portable(path) && glob_matches(globs[g], path) ==> documents(
                entries,
                matched,
            ).contains((entries[i].abs, path))
            &&& all_extension_globs(globs) && ends_with(path, globs[g].skip(4)) ==> documents(
                entries,
                matched,
            ).contains((entries[i].abs, relpath_of(path)))
        }),
{
    let path = text::joined(entries[i].components->0, "/"@);
    law_candidates(entries[i]);
    law_relpath(path);
    assert(candidate(entries[i]) == Some(path));
    if all_portable(globs) && portable(path) && glob_matches(globs[g], path) {
        assert(any_glob(globs, path));
        law_documents(entries, matched, (entries[i].abs, path));
    }
    if all_extension_globs(globs) && ends_with(path, globs[g].skip(4)) {
        assert(any_extension(globs, path));
        law_documents(entries, matched, (entries[i].abs, relpath_of(path)));
    }
}

/// A document is a file below the repository root that does not start in the
/// data directory, and where the globs and its path are portable, or all globs
/// ask for an extension, one of the globs matches its path.
pub proof fn law_documents_match(
    entries: Seq<WalkEntryView>,
    globs: Seq<Seq<char>>,
    matched: Seq<bool>,
    d: (nat, Seq<char>),
) -> (i: int)
    requires
        match_results(entries, globs, matched),
        documents(entries, matched).contains(d),
    ensures
        0 <= i < entries.len(),
        entries[i].is_file,
        entries[i].components is Some,
        entries[i].components->0.len() > 0 ==> entries[i].components->0[0] != ".corpus"@,
        ({
            let path = text::joined(entries[i].components->0, "/"@);
            &&& d == (entries[i].abs, relpath_of(path))
            &&& all_portable(globs) && portable(path) ==> exists|g: int|
                0 <= g < globs.len() && glob_matches(#[trigger] globs[g], path)
            &&& all_extension_globs(globs) ==> exists|g: int|
                0 <= g < globs.len() && ends_with(path, (#[trigger] globs[g]).skip(4))
        }),
        globs.len() > 0,
{
    law_documents(entries, matched, d);
    let i = choose|i: int|
        0 <= i < entries.len() && matched[i] && candidate(#[trigger] entries[i]) is Some && d == (
        entries[i].abs,
        relpath_of(candidate(entries[i])->0),
        );
    law_candidates(entries[i]);
    i
}

/// By the default globs, every file below the repository root whose path ends
/// in `.md`, `.mdx`, `.txt` or `.adoc` is a document, however deep it lies and
/// whatever its name, unless its path starts in the data directory.
pub proof fn law_default_documents(
    entries: Seq<WalkEntryView>,
    matched: Seq<bool>,
    i: int,
)
    requires
        match_results(entries, config::default_globs(), matched),
        0 <= i < entries.len(),
        entries[i].is_file,
        entries[i].components is Some,
        entries[i].components->0.len() > 0 ==> entries[i].components->0[0] != ".corpus"@,
    ensures
        ({
            let path = text::joined(entries[i].components->0, "/"@);
            let doc = (entries[i].abs, relpath_of(path));
            &&& ends_with(path, ".md"@) ==> documents(entries, matched).contains(doc)
            &&& ends_with(path, ".mdx"@) ==> documents(entries, matched).contains(doc)
            &&& ends_with(path, ".txt"@) ==> documents(entries, matched).contains(doc)
            &&& ends_with(path, ".adoc"@) ==> documents(entries, matched).contains(doc)
        }),
{
    let globs = config::default_globs();
    config::law_default_globs();
    reveal_strlit("**/*.md");
    reveal_strlit("**/*.mdx");
    reveal_strlit("**/*.txt");
    reveal_strlit("**/*.adoc");
    reveal_strlit(".md");
    reveal_strlit(".mdx");
    reveal_strlit(".txt");
    reveal_strlit(".adoc");
    assert(globs[0].skip(4) =~= ".md"@);
    assert(globs[1].skip(4) =~= ".mdx"@);
    assert(globs[2].skip(4) =~= ".txt"@);
    assert(globs[3].skip(4) =~= ".adoc"@);
    law_matching_files_are_documents(entries, globs, matched, i, 0);
    law_matching_files_are_documents(entries, globs, matched, i, 1);
    law_matching_files_are_documents(entries, globs, matched, i, 2);
    law_matching_files_are_documents(entries, globs, matched, i, 3);
}

/// A text that ends with another is that with some text before it.
pub proof fn law_ends_with(s: Seq<char>, end: Seq<char>)
    ensures
        ends_with(s + end, end),
        ends_with(s, end) ==> s == s.take(s.len() - end.len()) + end,
{
    assert((s + end).skip(s.len() as int) =~= end);
    if ends_with(s, end) {
        assert(s =~= s.take(s.len() - end.len()) + s.skip(s.len() - end.len()));
    }
}

/// The files that are still there are those of the entries one after another:
/// of a file below the repository root that does not start in the data
/// directory its path, and nothing of any other entry.
pub proof fn law_present(a: Seq<WalkEntryView>, b: Seq<WalkEntryView>, e: WalkEntryView)
    ensures
        present(a + b) == present(a) + present(b),
        present(Seq::empty()) == Seq::<Seq<char>>::empty(),
        match e.components {
            Some(parts) => if e.is_file && (parts.len() > 0 ==> parts[0] != ".corpus"@) {
                present(seq![e]) == seq![relpath_of(text::joined(parts, "/"@))]
            } else {
                present(seq![e]) == Seq::<Seq<char>>::empty()
            },
            None => present(seq![e]) == Seq::<Seq<char>>::empty(),
        },
    decreases b.len(),
{
    law_candidates(e);
    let none = Seq::<WalkEntryView>::empty();
    assert(present(none) =~= Seq::empty());
    assert(seq![e].drop_last() =~= none);
    assert(seq![e].last() == e);
    if b.len() == 0 {
        assert(a + b =~= a);
        assert(present(a) + present(b) =~= present(a));
    } else {
        law_present(a, b.drop_last(), e);
        assert((a + b).drop_last() =~= a + b.drop_last());
        assert((a + b).last() == b.last());
        assert(present(a + b) =~= present(a) + present(b));
    }
    if candidate(e) is Some {
        assert(present(seq![e]) =~= seq![relpath_of(candidate(e)->0)]);
    }
}

/// Of two equal neighbours one is kept, wherever they stand; nothing else goes.
pub proof fn law_deduped(
    a: Seq<(nat, Seq<char>)>,
    d: (nat, Seq<char>),
    b: Seq<(nat, Seq<char>)>,
)
    ensures
        deduped(a.push(d).push(d) + b) == deduped(a.push(d) + b),
        (forall|i: int| 0 <= i < a.len() - 1 ==> #[trigger] a[i] != a[i + 1]) ==> deduped(a) == a,
    decreases b.len(), a.len(),
{
    let twice = a.push(d).push(d);
    let once = a.push(d);
    if b.len() == 0 {
        assert(twice + b =~= twice);
        assert(once + b =~= once);
        assert(twice.drop_last() =~= once);
        if a.len() >= 2 {
            let front = a.drop_last();
            assert forall|i: int|
                0 <= i < front.len() - 1 && (forall|k: int|
                    0 <= k < a.len() - 1 ==> #[trigger] a[k] != a[k
                        + 1]) implies #[trigger] front[i] != front[i + 1] by {
                assert(a[i] != a[i + 1]);
            }
            if forall|i: int| 0 <= i < a.len() - 1 ==> #[trigger] a[i] != a[i + 1] {
                law_deduped(front, d, b);
                assert(a[a.len() - 2] != a[a.len() - 1]);
                assert(front.push(a.last()) =~= a);
            }
        }
    } else {
        let rest = b.drop_last();
        law_deduped(a, d, rest);
        let x = twice + b;
        let y = once + b;
        assert(x.drop_last() =~= twice + rest);
        assert(y.drop_last() =~= once + rest);
        assert(x[x.len() - 2] == y[y.len() - 2]);
        assert(x.last() == y.last());
    }
}

/// A list of globs is refused for the first of them that is not accepted, and
/// for nothing else.
pub proof fn law_first_rejection(globs: Seq<Seq<char>>)
    ensures
        first_rejection(globs) is None <==> forall|i: int|
            0 <= i < globs.len() ==> glob_rejection(#[trigger] globs[i]) is None,
        first_rejection(globs) matches Some(e) ==> exists|i: int|
            0 <= i < globs.len() && glob_rejection(#[trigger] globs[i]) == Some(e) && forall|j: int|
                0 <= j < i ==> glob_rejection(#[trigger] globs[j]) is None,
    decreases globs.len(),
{
    if globs.len() > 0 {
        let front = globs.drop_last();
        law_first_rejection(front);
        if first_rejection(front) is None {
            assert forall|j: int| 0 <= j < front.len() implies glob_rejection(
                #[trigger] globs[j],
            ) is None by {
                assert(front[j] == globs[j]);
            }
            assert(globs[globs.len() - 1] == globs.last());
        } else {
            let e = first_rejection(front)->0;
            let i = choose|i: int|
                0 <= i < front.len() && glob_rejection(#[trigger] front[i]) == Some(e) && forall|
                    j: int,
                |
                    0 <= j < i ==> glob_rejection(#[trigger] front[j]) is None;
            assert(globs[i] == front[i]);
            assert forall|j: int| 0 <= j < i implies glob_rejection(#[trigger] globs[j]) is None by {
                assert(front[j] == globs[j]);
            }
        }
    }
}

} // verus!
