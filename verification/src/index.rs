//! What goes into the lexical index and how a query is put to it.
//!
//! The index holds one document for each chunk. The path of a document is
//! matched as a whole, so that a changed or deleted file's chunks are dropped
//! with a single deletion; the joined headings and the body are searched.

use vstd::prelude::*;

use crate::chunk::{Chunk, ChunkView};
use crate::text;

verus! {

// ── documents ───────────────────────────────────────────────────────────────
/// A document of the index.
#[derive(Debug, Clone, PartialEq, Eq)]
pub struct IndexDocument {
    /// Matched as a whole by deletions.
    pub path: String,
    /// Stored, and handed out with a hit.
    pub chunk_id: String,
    /// Searched.
    pub heading: String,
    /// Searched.
    pub body: String,
}

/// What an [`IndexDocument`] holds.
#[verifier::ext_equal]
pub struct IndexDocumentView {
    pub path: Seq<char>,
    pub chunk_id: Seq<char>,
    pub heading: Seq<char>,
    pub body: Seq<char>,
}

impl View for IndexDocument {
    type V = IndexDocumentView;

    open spec fn view(&self) -> IndexDocumentView {
        IndexDocumentView {
            path: self.path@,
            chunk_id: self.chunk_id@,
            heading: self.heading@,
            body: self.body@,
        }
    }
}

/// The document of a chunk: the heading path joined by spaces, so that heading
/// terms count in the search.
pub open spec fn document(chunk: ChunkView) -> IndexDocumentView {
    IndexDocumentView {
        path: chunk.path,
        chunk_id: chunk.id,
        heading: text::joined(chunk.heading_path, " "@),
        body: chunk.text,
    }
}

/// The document of a chunk.
pub fn document_of(chunk: &Chunk) -> (r: IndexDocument)
    ensures
        r@ == document(chunk@),
{
    IndexDocument {
        path: chunk.path.clone(),
        chunk_id: chunk.id.clone(),
        heading: text::join(&chunk.heading_path, " "),
        body: chunk.text.clone(),
    }
}

/// The documents of an index after all those of a path are deleted.
pub open spec fn without_path(
    docs: Seq<IndexDocumentView>,
    path: Seq<char>,
) -> Seq<IndexDocumentView> {
    docs.filter(|d: IndexDocumentView| d.path != path)
}

/// The documents of an index after those of `chunks` are added.
pub open spec fn with_chunks(
    docs: Seq<IndexDocumentView>,
    chunks: Seq<ChunkView>,
) -> Seq<IndexDocumentView> {
    docs + chunks.map_values(|c: ChunkView| document(c))
}

/// Whether an index holds exactly one document for each chunk of a store, and
/// nothing else.
pub open spec fn mirrors(
    docs: Seq<IndexDocumentView>,
    chunks: Map<Seq<char>, ChunkView>,
) -> bool {
    &&& forall|i: int|
        0 <= i < docs.len() ==> chunks.contains_key((#[trigger] docs[i]).chunk_id) && docs[i]
            == document(chunks[docs[i].chunk_id])
    &&& forall|id: Seq<char>| #[trigger]
        chunks.contains_key(id) ==> exists|i: int|
            0 <= i < docs.len() && (#[trigger] docs[i]).chunk_id == id
    &&& forall|i: int, j: int|
        0 <= i < j < docs.len() ==> (#[trigger] docs[i]).chunk_id != (#[trigger] docs[j]).chunk_id
}

// ── queries ─────────────────────────────────────────────────────────────────
/// The characters with a meaning in the query syntax of the index.
pub open spec fn query_syntax(c: char) -> bool {
    ||| c == '+'
    ||| c == '-'
    ||| c == '&'
    ||| c == '|'
    ||| c == '!'
    ||| c == '('
    ||| c == ')'
    ||| c == '{'
    ||| c == '}'
    ||| c == '['
    ||| c == ']'
    ||| c == '^'
    ||| c == '"'
    ||| c == '~'
    ||| c == '*'
    ||| c == '?'
    ||| c == ':'
    ||| c == '\\'
    ||| c == '/'
    ||| c == '\''
    ||| c == '`'
    ||| c == '<'
    ||| c == '>'
}

fn is_query_syntax(c: char) -> (r: bool)
    ensures
        r == query_syntax(c),
{
    c == '+' || c == '-' || c == '&' || c == '|' || c == '!' || c == '(' || c == ')' || c == '{'
        || c == '}' || c == '[' || c == ']' || c == '^' || c == '"' || c == '~' || c == '*' || c
        == '?' || c == ':' || c == '\\' || c == '/' || c == '\'' || c == '`' || c == '<' || c == '>'
}

/// A query with a space in place of every character of the query syntax.
pub open spec fn sanitized(q: Seq<char>) -> Seq<char> {
    q.map_values(
        |c: char|
            if query_syntax(c) {
                ' '
            } else {
                c
            },
    )
}

/// Replaces the characters of the query syntax with spaces, so that the query
/// is a plain bag of terms.
pub fn sanitize_query(q: &str) -> (r: String)
    ensures
        r@ == sanitized(q@),
{
    let mut r = String::new();
    for c in it: q.chars()
        invariant
            it.seq() == q@,
            r@ == sanitized(q@.take(it.index())),
    {
        let plain: char = if is_query_syntax(c) {
            ' '
        } else {
            c
        };
        r.push(plain);
        assert(r@ =~= sanitized(q@.take(it.index() + 1)));
    }
    assert(q@.take(q@.len() as int) =~= q@);
    r
}

/// The words with a meaning in the query syntax of the index.
pub open spec fn keyword(w: Seq<char>) -> bool {
    w == "AND"@ || w == "OR"@ || w == "NOT"@ || w == "IN"@
}

/// A word as a term of a query: a keyword in lower case, which is the term that
/// the index knows it by; any other word as it is.
pub open spec fn plain_word(w: Seq<char>) -> Seq<char> {
    if keyword(w) {
        text::ascii_lowered(w)
    } else {
        w
    }
}

/// The terms of a query.
pub open spec fn query_words(q: Seq<char>) -> Seq<Seq<char>> {
    text::words(sanitized(q)).map_values(|w: Seq<char>| plain_word(w))
}

/// The query to put to the index: the terms with a space between neighbours, so
/// that any text is a bag of terms and none is an error of syntax. There is no
/// query where there is no term: then nothing is found.
pub fn index_query(q: &str) -> (r: Option<String>)
    ensures
        r is None <==> query_words(q@).len() == 0,
        r matches Some(s) ==> s@ == text::joined(query_words(q@), " "@),
{
    let found = text::split_white_space(sanitize_query(q).as_str());
    let ghost all = query_words(q@);
    if found.len() == 0 {
        assert(text::texts(found@).len() == 0);
        return None;
    }
    let mut terms: Vec<String> = Vec::new();
    let mut i: usize = 0;
    while i < found.len()
        invariant
            i <= found@.len(),
            text::texts(found@) == text::words(sanitized(q@)),
            all == query_words(q@),
            text::texts(terms@) == all.take(i as int),
        decreases found@.len() - i,
    {
        let ghost before = text::texts(terms@);
        assert(text::texts(found@)[i as int] == found@[i as int]@);
        let w = found[i].as_str();
        let term = if text::text_eq(w, "AND") || text::text_eq(w, "OR") || text::text_eq(w, "NOT")
            || text::text_eq(w, "IN") {
            text::to_ascii_lower(w)
        } else {
            w.to_owned()
        };
        terms.push(term);
        assert(text::texts(terms@) =~= before.push(all[i as int]));
        assert(all.take(i + 1) =~= all.take(i as int).push(all[i as int]));
        i = i + 1;
    }
    assert(all.take(i as int) =~= all);
    assert(text::texts(found@).len() == found@.len());
    Some(text::join(&terms, " "))
}

/// A sanitized query holds no character of the query syntax, and is its own
/// sanitized form.
pub proof fn law_sanitized(q: Seq<char>)
    ensures
        forall|i: int| 0 <= i < sanitized(q).len() ==> !query_syntax(#[trigger] sanitized(q)[i]),
        sanitized(sanitized(q)) == sanitized(q),
        sanitized(q).len() == q.len(),
{
    assert(sanitized(sanitized(q)) =~= sanitized(q));
}

proof fn lemma_pieces_plain(s: Seq<char>, sep: text::Separator, i: int, j: int)
    requires
        forall|k: int| 0 <= k < s.len() ==> !query_syntax(#[trigger] s[k]),
        0 <= i < text::pieces(s, sep).len(),
        0 <= j < text::pieces(s, sep)[i].len(),
    ensures
        !query_syntax(text::pieces(s, sep)[i][j]),
    decreases s.len(),
{
    if s.len() > 0 {
        let front = s.drop_last();
        assert forall|k: int| 0 <= k < front.len() implies !query_syntax(#[trigger] front[k]) by {
            assert(front[k] == s[k]);
        }
        assert(!query_syntax(s[s.len() - 1]));
        text::lemma_pieces_nonempty(front, sep);
        if i < text::pieces(front, sep).len() && j < text::pieces(front, sep)[i].len() {
            lemma_pieces_plain(front, sep, i, j);
        }
    }
}

/// Whatever a caller asks, the query put to the index is a bag of terms: every
/// term is a word without a character of the query syntax, and none is a
/// keyword.
pub proof fn law_query_is_bag_of_terms(q: Seq<char>, i: int)
    requires
        0 <= i < query_words(q).len(),
    ensures
        query_words(q)[i].len() > 0,
        !keyword(query_words(q)[i]),
        forall|j: int|
            0 <= j < query_words(q)[i].len() ==> !query_syntax(#[trigger] query_words(q)[i][j])
                && !text::white_space(query_words(q)[i][j]),
{
    reveal_strlit("AND");
    reveal_strlit("OR");
    reveal_strlit("NOT");
    reveal_strlit("IN");
    let s = sanitized(q);
    let found = text::words(s);
    let w = found[i];
    assert(found.contains(w));
    text::lemma_words(s, w);
    law_sanitized(q);
    let all = text::pieces(s, text::Separator::WhiteSpace);
    all.lemma_filter_contains_rev(|w: Seq<char>| w.len() > 0, w);
    let at = all.index_of(w);
    let term = query_words(q)[i];
    if keyword(w) {
        assert(term[0] == text::ascii_lower(w[0]));
    }
    assert forall|j: int| 0 <= j < term.len() implies !query_syntax(#[trigger] term[j])
        && !text::white_space(term[j]) by {
        lemma_pieces_plain(s, text::Separator::WhiteSpace, at, j);
        assert(!text::white_space(w[j]));
        if keyword(w) {
            assert(term[j] == text::ascii_lower(w[j]));
        }
    }
}

/// The characters of the query syntax, and no others, become spaces; every other
/// character stays at its place.
pub proof fn law_sanitized_characters(q: Seq<char>, c: char)
    ensures
        query_syntax(c) <==> "+-&|!(){}[]^\"~*?:\\/'`<>"@.contains(c),
        sanitized(q).len() == q.len(),
        forall|i: int|
            #![trigger sanitized(q)[i]]
            0 <= i < q.len() ==> sanitized(q)[i] == if query_syntax(q[i]) {
                ' '
            } else {
                q[i]
            },
{
    reveal_strlit("+-&|!(){}[]^\"~*?:\\/'`<>");
    let all = "+-&|!(){}[]^\"~*?:\\/'`<>"@;
    assert(all =~= seq!['+', '-', '&', '|', '!', '(', ')', '{', '}', '[', ']', '^', '"', '~', '*',
        '?', ':', '\\', '/', '\'', '`', '<', '>']);
    if query_syntax(c) {
        assert(all[0] == '+' && all[1] == '-' && all[2] == '&' && all[3] == '|' && all[4] == '!'
            && all[5] == '(' && all[6] == ')' && all[7] == '{' && all[8] == '}' && all[9] == '['
            && all[10] == ']' && all[11] == '^' && all[12] == '"' && all[13] == '~' && all[14]
            == '*' && all[15] == '?' && all[16] == ':' && all[17] == '\\' && all[18] == '/'
            && all[19] == '\'' && all[20] == '`' && all[21] == '<' && all[22] == '>');
    }
}

/// The terms of a query are the words of the sanitized text, as many and in
/// their order. Each is its word character for character up to the case of a
/// keyword: `AND`, `OR`, `NOT` and `IN` are put in lower case, and any other
/// word, however long, is left as it is.
pub proof fn law_terms_are_the_words(q: Seq<char>)
    ensures
        query_words(q).len() == text::words(sanitized(q)).len(),
        forall|i: int|
            #![trigger query_words(q)[i]]
            0 <= i < query_words(q).len() ==> {
                let word = text::words(sanitized(q))[i];
                let term = query_words(q)[i];
                &&& text::ascii_lowered(term) == text::ascii_lowered(word)
                &&& word == "AND"@ ==> term == "and"@
                &&& word == "OR"@ ==> term == "or"@
                &&& word == "NOT"@ ==> term == "not"@
                &&& word == "IN"@ ==> term == "in"@
                &&& word != "AND"@ && word != "OR"@ && word != "NOT"@ && word != "IN"@ ==> term
                    == word
            },
{
    reveal_strlit("AND");
    reveal_strlit("OR");
    reveal_strlit("NOT");
    reveal_strlit("IN");
    reveal_strlit("and");
    reveal_strlit("or");
    reveal_strlit("not");
    reveal_strlit("in");
    assert(text::ascii_lowered("AND"@) =~= "and"@);
    assert(text::ascii_lowered("OR"@) =~= "or"@);
    assert(text::ascii_lowered("NOT"@) =~= "not"@);
    assert(text::ascii_lowered("IN"@) =~= "in"@);
    assert forall|w: Seq<char>| text::ascii_lowered(#[trigger] text::ascii_lowered(w))
        == text::ascii_lowered(w) by {
        assert(text::ascii_lowered(text::ascii_lowered(w)) =~= text::ascii_lowered(w));
    }
}

/// A query of two texts with white space or a character of the query syntax
/// between them has the terms of the one, then those of the other.
pub proof fn law_terms_of_two_texts(a: Seq<char>, c: char, b: Seq<char>)
    requires
        text::white_space(c) || query_syntax(c),
    ensures
        query_words(a.push(c) + b) == query_words(a) + query_words(b),
{
    let kept = if query_syntax(c) {
        ' '
    } else {
        c
    };
    assert(sanitized(a.push(c) + b) =~= sanitized(a).push(kept) + sanitized(b));
    text::law_words_around_white_space(sanitized(a), kept, sanitized(b));
    let f = |w: Seq<char>| plain_word(w);
    assert((text::words(sanitized(a)) + text::words(sanitized(b))).map_values(f) =~= query_words(a)
        + query_words(b));
}

/// The document of a chunk holds the chunk's path, id and text whole, and all
/// its headings, with a space between neighbours.
pub proof fn law_document(chunk: ChunkView, heading: Seq<char>)
    ensures
        document(chunk).path == chunk.path,
        document(chunk).chunk_id == chunk.id,
        document(chunk).body == chunk.text,
        chunk.heading_path.len() == 0 ==> document(chunk).heading.len() == 0,
        chunk.heading_path.len() == 1 ==> document(chunk).heading == chunk.heading_path[0],
        chunk.heading_path.len() > 0 ==> document(
            ChunkView { heading_path: chunk.heading_path.push(heading), ..chunk },
        ).heading == document(chunk).heading.push(' ') + heading,
{
    reveal_strlit(" ");
    assert(" "@ =~= seq![' ']);
    let more = chunk.heading_path.push(heading);
    assert(more.drop_last() =~= chunk.heading_path);
    assert(document(chunk).heading + " "@ + heading =~= document(chunk).heading.push(' ')
        + heading);
}

/// Deleting a path drops its documents and keeps all others, in order.
pub proof fn law_without_path(
    a: Seq<IndexDocumentView>,
    b: Seq<IndexDocumentView>,
    d: IndexDocumentView,
    path: Seq<char>,
)
    ensures
        without_path(a + b, path) == without_path(a, path) + without_path(b, path),
        without_path(Seq::empty(), path) == Seq::<IndexDocumentView>::empty(),
        without_path(seq![d], path) == if d.path == path {
            Seq::empty()
        } else {
            seq![d]
        },
{
    let keep = |d: IndexDocumentView| d.path != path;
    Seq::filter_distributes_over_add(a, b, keep);
    reveal(Seq::filter);
    let none = Seq::<IndexDocumentView>::empty();
    assert(none.filter(keep) =~= none);
    none.lemma_filter_push(d, keep);
    assert(none.push(d) =~= seq![d]);
}

/// Adding chunks keeps the documents and puts one behind them for each chunk,
/// in order.
pub proof fn law_with_chunks(docs: Seq<IndexDocumentView>, chunks: Seq<ChunkView>)
    ensures
        with_chunks(docs, chunks).len() == docs.len() + chunks.len(),
        with_chunks(docs, chunks).take(docs.len() as int) == docs,
        forall|i: int|
            #![trigger chunks[i]]
            0 <= i < chunks.len() ==> with_chunks(docs, chunks)[docs.len() + i] == document(
                chunks[i],
            ),
{
    assert(with_chunks(docs, chunks).take(docs.len() as int) =~= docs);
}

/// The view of a document of the index holds its fields.
pub proof fn law_index_document_view(d: IndexDocument)
    ensures
        d@.path == d.path@,
        d@.chunk_id == d.chunk_id@,
        d@.heading == d.heading@,
        d@.body == d.body@,
{
}

} // verus!
