//! Configuration.
//!
//! Precedence, low to high: built-in defaults, an optional configuration file,
//! environment variables, then the arguments of a call. Embeddings are off by
//! default.

use vstd::prelude::*;

use crate::{discovery, text};

verus! {

/// The configuration for one repository.
#[derive(Debug, Clone, PartialEq, Eq)]
pub struct CorpusConfig {
    /// Globs of the files to take in, relative to the repository root.
    pub include_globs: Vec<String>,
    /// Whether semantic embeddings are enabled.
    pub embeddings: bool,
    /// Name of the embedding provider (`openai`, `gemini`, `ollama` or
    /// `openrouter`). Only consulted when `embeddings` is true.
    pub embed_provider: Option<String>,
    /// The provider's name for the model. Only consulted when `embeddings` is
    /// true.
    pub embed_model: Option<String>,
    /// The number of dimensions. Only consulted when `embeddings` is true.
    pub embed_dims: Option<usize>,
}

/// What a [`CorpusConfig`] holds.
#[verifier::ext_equal]
pub struct CorpusConfigView {
    pub include_globs: Seq<Seq<char>>,
    pub embeddings: bool,
    pub embed_provider: Option<Seq<char>>,
    pub embed_model: Option<Seq<char>>,
    pub embed_dims: Option<nat>,
}

/// The view of an optional string.
pub open spec fn opt_view(s: Option<String>) -> Option<Seq<char>> {
    match s {
        Some(s) => Some(s@),
        None => None,
    }
}

impl View for CorpusConfig {
    type V = CorpusConfigView;

    open spec fn view(&self) -> CorpusConfigView {
        CorpusConfigView {
            include_globs: text::texts(self.include_globs@),
            embeddings: self.embeddings,
            embed_provider: opt_view(self.embed_provider),
            embed_model: opt_view(self.embed_model),
            embed_dims: match self.embed_dims {
                Some(d) => Some(d as nat),
                None => None,
            },
        }
    }
}

/// The globs of the files that are taken in by default.
pub open spec fn default_globs() -> Seq<Seq<char>> {
    seq!["**/*.md"@, "**/*.mdx"@, "**/*.txt"@, "**/*.adoc"@]
}

/// The globs of the files that are taken in by default.
pub fn default_include() -> (r: Vec<String>)
    ensures
        text::texts(r@) == default_globs(),
{
    let mut globs: Vec<String> = Vec::new();
    globs.push("**/*.md".to_owned());
    globs.push("**/*.mdx".to_owned());
    globs.push("**/*.txt".to_owned());
    globs.push("**/*.adoc".to_owned());
    assert(text::texts(globs@) =~= default_globs());
    globs
}

/// The default globs are accepted: each asks for an extension.
pub proof fn law_default_globs()
    ensures
        discovery::all_extension_globs(default_globs()),
        discovery::all_direct_globs(default_globs()),
        discovery::all_portable(default_globs()),
{
    reveal_strlit("**/*.md");
    reveal_strlit("**/*.mdx");
    reveal_strlit("**/*.txt");
    reveal_strlit("**/*.adoc");
    let start = seq!['*', '*', '/', '*', '.'];
    assert("**/*.md"@.take(5) =~= start);
    assert("**/*.mdx"@.take(5) =~= start);
    assert("**/*.txt"@.take(5) =~= start);
    assert("**/*.adoc"@.take(5) =~= start);
    discovery::law_extension_globs_are_direct(default_globs());
}

/// The built-in defaults.
pub open spec fn default_config() -> CorpusConfigView {
    CorpusConfigView {
        include_globs: default_globs(),
        embeddings: false,
        embed_provider: None,
        embed_model: None,
        embed_dims: None,
    }
}

impl Default for CorpusConfig {
    /// The built-in defaults: the default globs, text search only.
    fn default() -> (r: CorpusConfig)
        ensures
            r@ == default_config(),
    {
        CorpusConfig {
            include_globs: default_include(),
            embeddings: false,
            embed_provider: None,
            embed_model: None,
            embed_dims: None,
        }
    }
}

/// The environment variables of the configuration, each if it is set.
#[derive(Debug, Clone, PartialEq, Eq)]
pub struct EnvVars {
    /// `CORPUS_EMBEDDINGS`
    pub embeddings: Option<String>,
    /// `CORPUS_EMBED_PROVIDER`
    pub embed_provider: Option<String>,
    /// `CORPUS_EMBED_MODEL`
    pub embed_model: Option<String>,
    /// `CORPUS_EMBED_DIMS`
    pub embed_dims: Option<String>,
    /// `CORPUS_INCLUDE`
    pub include_globs: Option<String>,
}

/// What [`EnvVars`] holds.
#[verifier::ext_equal]
pub struct EnvVarsView {
    pub embeddings: Option<Seq<char>>,
    pub embed_provider: Option<Seq<char>>,
    pub embed_model: Option<Seq<char>>,
    pub embed_dims: Option<Seq<char>>,
    pub include_globs: Option<Seq<char>>,
}

impl View for EnvVars {
    type V = EnvVarsView;

    open spec fn view(&self) -> EnvVarsView {
        EnvVarsView {
            embeddings: opt_view(self.embeddings),
            embed_provider: opt_view(self.embed_provider),
            embed_model: opt_view(self.embed_model),
            embed_dims: opt_view(self.embed_dims),
            include_globs: opt_view(self.include_globs),
        }
    }
}

/// Whether a text means yes: `1`, `true` or `on`, in any case, with white space
/// around it.
pub open spec fn affirmative(s: Seq<char>) -> bool {
    let v = text::ascii_lowered(text::trimmed(s));
    v == "1"@ || v == "true"@ || v == "on"@
}

fn is_affirmative(s: &str) -> (r: bool)
    ensures
        r == affirmative(s@),
{
    let v = text::to_ascii_lower(text::trim(s).as_str());
    text::text_eq(v.as_str(), "1") || text::text_eq(v.as_str(), "true") || text::text_eq(
        v.as_str(),
        "on",
    )
}

/// A setting from a variable: its trimmed text, unless it is unset or blank.
pub open spec fn set_text(var: Option<Seq<char>>, otherwise: Option<Seq<char>>) -> Option<
    Seq<char>,
> {
    match var {
        Some(v) => if text::trimmed(v).len() > 0 {
            Some(text::trimmed(v))
        } else {
            otherwise
        },
        None => otherwise,
    }
}

/// Overrides a setting by a variable that is set and not blank.
fn override_text(setting: &mut Option<String>, var: &Option<String>)
    ensures
        opt_view(*final(setting)) == set_text(opt_view(*var), opt_view(*old(setting))),
{
    if let Some(v) = var {
        let t = text::trim(v.as_str());
        if !t.as_str().is_empty() {
            *setting = Some(t);
        }
    }
}

/// The globs of a comma-separated list: trimmed, without the blank ones.
pub open spec fn glob_list(s: Seq<char>) -> Seq<Seq<char>> {
    text::pieces(s, text::Separator::Char(',')).map_values(
        |p: Seq<char>| text::trimmed(p),
    ).filter(|w: Seq<char>| w.len() > 0)
}

/// The globs of a comma-separated list.
fn parse_globs(s: &str) -> (r: Vec<String>)
    ensures
        text::texts(r@) == glob_list(s@),
{
    let parts = text::split(s, text::Separator::Char(','));
    let ghost all = text::texts(parts@).map_values(|p: Seq<char>| text::trimmed(p));
    let mut trimmed: Vec<String> = Vec::new();
    let mut i: usize = 0;
    while i < parts.len()
        invariant
            i <= parts@.len(),
            all == text::texts(parts@).map_values(|p: Seq<char>| text::trimmed(p)),
            text::texts(trimmed@) == all.take(i as int),
        decreases parts@.len() - i,
    {
        let ghost before = text::texts(trimmed@);
        let t = text::trim(parts[i].as_str());
        trimmed.push(t);
        assert(text::texts(trimmed@) =~= before.push(t@));
        assert(all.take(i + 1) =~= all.take(i as int).push(all[i as int]));
        i = i + 1;
    }
    assert(all.take(i as int) =~= all);
    text::non_empty(trimmed)
}

/// A configuration with the environment laid over it.
pub open spec fn with_env(cfg: CorpusConfigView, env: EnvVarsView) -> CorpusConfigView {
    CorpusConfigView {
        include_globs: match env.include_globs {
            Some(v) => if glob_list(v).len() > 0 {
                glob_list(v)
            } else {
                cfg.include_globs
            },
            None => cfg.include_globs,
        },
        embeddings: match env.embeddings {
            Some(v) => affirmative(v),
            None => cfg.embeddings,
        },
        embed_provider: set_text(env.embed_provider, cfg.embed_provider),
        embed_model: set_text(env.embed_model, cfg.embed_model),
        embed_dims: match env.embed_dims {
            Some(v) => match text::parsed_number(text::trimmed(v)) {
                Some(d) => Some(d),
                None => cfg.embed_dims,
            },
            None => cfg.embed_dims,
        },
    }
}

impl CorpusConfig {
    /// The configuration for a repository: the one in its file where there is
    /// one that can be read, else the defaults, with the environment laid over
    /// it. The arguments of a call are applied by the caller.
    pub fn load(file: Option<CorpusConfig>, env: &EnvVars) -> (r: CorpusConfig)
        ensures
            r@ == with_env(
                match file {
                    Some(cfg) => cfg@,
                    None => default_config(),
                },
                env@,
            ),
    {
        let mut cfg = match file {
            Some(cfg) => cfg,
            None => CorpusConfig::default(),
        };
        cfg.apply_env(env);
        cfg
    }

    /// Lays the environment over the configuration:
    /// - `CORPUS_EMBEDDINGS`: `1`, `true` or `on` enables embeddings, anything
    ///   else disables them.
    /// - `CORPUS_EMBED_PROVIDER`, `CORPUS_EMBED_MODEL`, `CORPUS_EMBED_DIMS`.
    /// - `CORPUS_INCLUDE`: comma-separated globs.
    pub fn apply_env(&mut self, env: &EnvVars)
        ensures
            final(self)@ == with_env(old(self)@, env@),
    {
        if let Some(v) = &env.embeddings {
            self.embeddings = is_affirmative(v.as_str());
        }
        override_text(&mut self.embed_provider, &env.embed_provider);
        override_text(&mut self.embed_model, &env.embed_model);
        if let Some(v) = &env.embed_dims {
            if let Some(d) = text::parse_number(text::trim(v.as_str()).as_str()) {
                self.embed_dims = Some(d);
            }
        }
        if let Some(v) = &env.include_globs {
            let globs = parse_globs(v.as_str());
            assert(text::texts(globs@).len() == globs@.len());
            if globs.len() > 0 {
                self.include_globs = globs;
            }
        }
        assert(self@ =~= with_env(old(self)@, env@));
    }
}

/// The environment wins over the configuration it is laid over: what a variable
/// sets does not depend on it, and an environment that sets nothing changes
/// nothing.
pub proof fn law_env_precedence(a: CorpusConfigView, b: CorpusConfigView, env: EnvVarsView)
    ensures
        env.embeddings is Some ==> with_env(a, env).embeddings == with_env(b, env).embeddings,
        env.embed_provider is Some && text::trimmed(env.embed_provider->0).len() > 0 ==> with_env(
            a,
            env,
        ).embed_provider == with_env(b, env).embed_provider,
        env.embed_model is Some && text::trimmed(env.embed_model->0).len() > 0 ==> with_env(
            a,
            env,
        ).embed_model == with_env(b, env).embed_model,
        env.embed_dims is Some && text::parsed_number(text::trimmed(env.embed_dims->0)) is Some
            ==> with_env(a, env).embed_dims == with_env(b, env).embed_dims,
        env.include_globs is Some && glob_list(env.include_globs->0).len() > 0 ==> with_env(a, env).include_globs
            == with_env(b, env).include_globs,
        with_env(
            a,
            EnvVarsView {
                embeddings: None,
                embed_provider: None,
                embed_model: None,
                embed_dims: None,
                include_globs: None,
            },
        ) == a,
{
}

// ── places ──────────────────────────────────────────────────────────────────
/// Where the data of a repository is kept.
#[derive(Debug, Clone, PartialEq, Eq)]
pub enum DataDir {
    /// This directory, as given.
    Given(String),
    /// The directory `.corpus` in the repository.
    InRepository,
}

/// Whether a variable is set and not blank.
pub open spec fn given(var: Option<Seq<char>>) -> bool {
    var is Some && text::trimmed(var->0).len() > 0
}

/// Where the data of a repository is kept, by the variable `CORPUS_DATA_DIR`:
/// its value as it stands if it is set and not blank, else `.corpus` in the
/// repository.
pub fn resolve_data_dir(var: Option<String>) -> (r: DataDir)
    ensures
        given(opt_view(var)) ==> (r matches DataDir::Given(p) && p@ == var->0@),
        !given(opt_view(var)) ==> r is InRepository,
{
    match var {
        Some(p) => if text::trim(p.as_str()).as_str().is_empty() {
            DataDir::InRepository
        } else {
            DataDir::Given(p)
        },
        None => DataDir::InRepository,
    }
}

/// Where the provider keys are read from.
#[derive(Debug, Clone, PartialEq, Eq)]
pub enum KeysFile {
    /// This file, as given.
    Given(String),
    /// The file `.praxec/providers.env` in the home directory.
    InHome,
}

/// Where the provider keys are read from, by the variable
/// `PRAXEC_PROVIDER_KEYS_FILE`: the file it names if it is set and not blank,
/// else the one in the home directory.
pub fn resolve_keys_file(var: Option<String>) -> (r: KeysFile)
    ensures
        given(opt_view(var)) ==> (r matches KeysFile::Given(p) && p@ == var->0@),
        !given(opt_view(var)) ==> r is InHome,
{
    match var {
        Some(p) => if text::trim(p.as_str()).as_str().is_empty() {
            KeysFile::InHome
        } else {
            KeysFile::Given(p)
        },
        None => KeysFile::InHome,
    }
}

// ── provider keys ───────────────────────────────────────────────────────────
/// A variable and its value.
#[derive(Debug, Clone, PartialEq, Eq)]
pub struct ProviderKey {
    pub name: String,
    pub value: String,
}

impl View for ProviderKey {
    type V = (Seq<char>, Seq<char>);

    open spec fn view(&self) -> (Seq<char>, Seq<char>) {
        (self.name@, self.value@)
    }
}

/// The views of a sequence of keys.
pub open spec fn key_views(v: Seq<ProviderKey>) -> Seq<(Seq<char>, Seq<char>)> {
    v.map_values(|k: ProviderKey| k@)
}

/// Whether a variable of this name can be given this value: the name is not
/// empty and holds neither an equals sign nor a null character, and the value
/// holds no null character.
pub open spec fn settable(key: (Seq<char>, Seq<char>)) -> bool {
    &&& key.0.len() > 0
    &&& !key.0.contains('=')
    &&& !key.0.contains('\u{0}')
    &&& !key.1.contains('\u{0}')
}

/// Whether a text holds a character.
fn contains_char(s: &str, c: char) -> (r: bool)
    ensures
        r == s@.contains(c),
{
    let chars = text::chars_of(s);
    let mut i: usize = 0;
    while i < chars.len()
        invariant
            i <= chars@.len(),
            chars@ == s@,
            forall|j: int| 0 <= j < i ==> chars@[j] != c,
        decreases chars@.len() - i,
    {
        if chars[i] == c {
            return true;
        }
        i = i + 1;
    }
    false
}

/// The key on a line: the trimmed texts before and behind its first equals
/// sign. A blank line, a comment and a line without an equals sign hold none,
/// nor does a line whose variable cannot be set.
pub open spec fn line_key(line: Seq<char>) -> Option<(Seq<char>, Seq<char>)> {
    let t = text::trimmed(line);
    if t.len() == 0 || t[0] == '#' {
        None
    } else {
        match text::first_place(t, '=') {
            Some(at) => {
                let key = (text::trimmed(t.take(at)), text::trimmed(t.skip(at + 1)));
                if settable(key) {
                    Some(key)
                } else {
                    None
                }
            },
            None => None,
        }
    }
}

fn parse_line(line: &str) -> (r: Option<ProviderKey>)
    ensures
        r is Some <==> line_key(line@) is Some,
        r matches Some(k) ==> line_key(line@) == Some(k@),
{
    let t = text::trim(line);
    let chars = text::chars_of(t.as_str());
    if chars.len() == 0 || chars[0] == '#' {
        return None;
    }
    let at = match text::find_char(&chars, '=') {
        Some(at) => at,
        None => { return None; },
    };
    assert(chars@.subrange(0, at as int) =~= chars@.take(at as int));
    assert(chars@.subrange(at + 1, chars@.len() as int) =~= chars@.skip(at + 1));
    let name = text::trim_range(&chars, 0, at);
    let value = text::trim_range(&chars, at + 1, chars.len());
    if name.as_str().is_empty() || contains_char(name.as_str(), '=') || contains_char(
        name.as_str(),
        '\u{0}',
    ) || contains_char(value.as_str(), '\u{0}') {
        None
    } else {
        Some(ProviderKey { name, value })
    }
}

/// The keys in a file of provider keys, line by line.
pub open spec fn file_keys(raw: Seq<char>) -> Seq<(Seq<char>, Seq<char>)> {
    text::pieces(raw, text::Separator::Char('\n')).filter_map(
        |line: Seq<char>| line_key(line),
    )
}

/// The keys in a file of provider keys, in order. Each can be set.
pub fn provider_keys(raw: &str) -> (r: Vec<ProviderKey>)
    ensures
        key_views(r@) == file_keys(raw@),
        forall|i: int| 0 <= i < r@.len() ==> settable((#[trigger] r@[i])@),
{
    let lines = text::split(raw, text::Separator::Char('\n'));
    let ghost all = text::texts(lines@);
    let ghost f = |line: Seq<char>| line_key(line);
    let mut keys: Vec<ProviderKey> = Vec::new();
    let mut i: usize = 0;
    assert(all.take(0) =~= Seq::empty());
    assert(key_views(keys@) =~= all.take(0).filter_map(f)) by {
        reveal(Seq::filter_map);
    }
    while i < lines.len()
        invariant
            i <= lines@.len(),
            all == text::texts(lines@),
            f == (|line: Seq<char>| line_key(line)),
            key_views(keys@) == all.take(i as int).filter_map(f),
            forall|k: int| 0 <= k < keys@.len() ==> settable((#[trigger] keys@[k])@),
        decreases lines@.len() - i,
    {
        let ghost before = key_views(keys@);
        proof {
            all.lemma_filter_map_take_succ(f, i as int);
        }
        assert(all[i as int] == lines@[i as int]@);
        if let Some(key) = parse_line(lines[i].as_str()) {
            keys.push(key);
            assert(key_views(keys@) =~= before.push(key@));
        }
        i = i + 1;
    }
    assert(all.take(i as int) =~= all);
    keys
}

/// Whether one of these keys has this name.
pub open spec fn names_contain(keys: Seq<(Seq<char>, Seq<char>)>, name: Seq<char>) -> bool {
    exists|i: int| 0 <= i < keys.len() && (#[trigger] keys[i]).0 == name
}

/// The keys to put into the environment: those whose variable is not set yet,
/// each variable once, from its first line.
pub open spec fn seeds(keys: Seq<(Seq<char>, Seq<char>)>, present: Seq<bool>) -> Seq<
    (Seq<char>, Seq<char>),
>
    decreases keys.len(),
{
    if keys.len() == 0 {
        Seq::empty()
    } else {
        let front = seeds(keys.drop_last(), present);
        if present[keys.len() - 1] || names_contain(keys.drop_last(), keys.last().0) {
            front
        } else {
            front.push(keys.last())
        }
    }
}

/// Which keys to put into the environment, given which of their variables are
/// set already.
pub fn keys_to_seed(keys: &Vec<ProviderKey>, present: &Vec<bool>) -> (r: Vec<ProviderKey>)
    requires
        keys@.len() == present@.len(),
    ensures
        key_views(r@) == seeds(key_views(keys@), present@),
        (forall|i: int| 0 <= i < keys@.len() ==> settable((#[trigger] keys@[i])@)) ==> (forall|
            i: int,
        |
            0 <= i < r@.len() ==> settable((#[trigger] r@[i])@)),
{
    let ghost all = key_views(keys@);
    let mut out: Vec<ProviderKey> = Vec::new();
    let mut i: usize = 0;
    assert(key_views(out@) =~= seeds(all.take(0), present@));
    while i < keys.len()
        invariant
            i <= keys@.len(),
            keys@.len() == present@.len(),
            all == key_views(keys@),
            key_views(out@) == seeds(all.take(i as int), present@),
            (forall|k: int| 0 <= k < keys@.len() ==> settable((#[trigger] keys@[k])@)) ==> (
            forall|k: int| 0 <= k < out@.len() ==> settable((#[trigger] out@[k])@)),
        decreases keys@.len() - i,
    {
        let ghost front = all.take(i as int);
        assert(all.take(i + 1).drop_last() =~= front);
        let name = &keys[i].name;
        let mut repeated = false;
        let mut j: usize = 0;
        while j < i
            invariant
                j <= i < keys@.len(),
                all == key_views(keys@),
                front == all.take(i as int),
                name@ == all[i as int].0,
                repeated <==> exists|m: int| 0 <= m < j && (#[trigger] front[m]).0 == name@,
            decreases i - j,
        {
            assert(front[j as int] == keys@[j as int]@);
            if keys[j].name == *name {
                repeated = true;
            }
            j = j + 1;
        }
        assert(repeated <==> names_contain(front, name@));
        if !present[i] && !repeated {
            let key = ProviderKey { name: name.clone(), value: keys[i].value.clone() };
            let ghost before = key_views(out@);
            out.push(key);
            assert(key_views(out@) =~= before.push(key@));
        }
        i = i + 1;
    }
    assert(all.take(i as int) =~= all);
    out
}

/// A variable that is set keeps its value: it is never among the keys to put
/// into the environment. (Lines of the same variable find it set or unset
/// alike.)
pub proof fn law_existing_keys_win(
    keys: Seq<(Seq<char>, Seq<char>)>,
    present: Seq<bool>,
    name: Seq<char>,
)
    requires
        keys.len() == present.len(),
        forall|i: int|
            0 <= i < keys.len() && (#[trigger] keys[i]).0 == name ==> present[i],
    ensures
        !names_contain(seeds(keys, present), name),
{
    lemma_seeds_from(keys, present, name);
}

/// The first line of a variable that is not set gives its value, and gives it
/// once.
pub proof fn law_first_key_wins(
    keys: Seq<(Seq<char>, Seq<char>)>,
    present: Seq<bool>,
    at: int,
)
    requires
        keys.len() == present.len(),
        0 <= at < keys.len(),
        !present[at],
        !names_contain(keys.take(at), keys[at].0),
    ensures
        exists|i: int| 0 <= i < seeds(keys, present).len() && seeds(keys, present)[i] == keys[at],
        forall|i: int|
            0 <= i < seeds(keys, present).len() && (#[trigger] seeds(keys, present)[i]).0
                == keys[at].0 ==> seeds(keys, present)[i] == keys[at],
    decreases keys.len(),
{
    let s = seeds(keys, present);
    let front = keys.drop_last();
    if at == keys.len() - 1 {
        assert(keys.take(at) =~= front);
        assert(s[s.len() - 1] == keys[at]);
        if names_contain(seeds(front, present), keys[at].0) {
            lemma_seed_names(front, present, keys[at].0);
        }
        assert forall|i: int| 0 <= i < s.len() && (#[trigger] s[i]).0 == keys[at].0 implies s[i]
            == keys[at] by {
            if i < s.len() - 1 {
                assert(seeds(front, present)[i].0 == keys[at].0);
            }
        }
    } else {
        assert(front.take(at) =~= keys.take(at));
        lemma_seeds_present(front, present, present.drop_last());
        law_first_key_wins(front, present.drop_last(), at);
        assert(front[at] == keys[at]);
        let old = seeds(front, present);
        let k = choose|i: int| 0 <= i < old.len() && old[i] == front[at];
        assert(s[k] == keys[at]);
        assert forall|i: int| 0 <= i < s.len() && (#[trigger] s[i]).0 == keys[at].0 implies s[i]
            == keys[at] by {
            if i < old.len() {
                assert(old[i].0 == front[at].0);
            } else {
                assert(front[at].0 == keys.last().0);
                assert(names_contain(front, keys.last().0));
            }
        }
    }
}

proof fn lemma_seeds_present(
    keys: Seq<(Seq<char>, Seq<char>)>,
    a: Seq<bool>,
    b: Seq<bool>,
)
    requires
        a.len() >= keys.len(),
        b.len() >= keys.len(),
        forall|i: int| 0 <= i < keys.len() ==> a[i] == b[i],
    ensures
        seeds(keys, a) == seeds(keys, b),
    decreases keys.len(),
{
    if keys.len() > 0 {
        lemma_seeds_present(keys.drop_last(), a, b);
    }
}

proof fn lemma_seed_names(
    keys: Seq<(Seq<char>, Seq<char>)>,
    present: Seq<bool>,
    name: Seq<char>,
)
    requires
        names_contain(seeds(keys, present), name),
    ensures
        names_contain(keys, name),
    decreases keys.len(),
{
    if keys.len() > 0 {
        let front = keys.drop_last();
        let s = seeds(keys, present);
        let i = choose|i: int| 0 <= i < s.len() && (#[trigger] s[i]).0 == name;
        if i < seeds(front, present).len() {
            assert(seeds(front, present)[i].0 == name);
            lemma_seed_names(front, present, name);
            let j = choose|j: int| 0 <= j < front.len() && (#[trigger] front[j]).0 == name;
            assert(keys[j].0 == name);
        } else {
            assert(keys[keys.len() - 1].0 == name);
        }
    }
}

proof fn lemma_seeds_from(
    keys: Seq<(Seq<char>, Seq<char>)>,
    present: Seq<bool>,
    name: Seq<char>,
)
    requires
        keys.len() <= present.len(),
        forall|i: int|
            0 <= i < keys.len() && (#[trigger] keys[i]).0 == name ==> present[i],
    ensures
        !names_contain(seeds(keys, present), name),
    decreases keys.len(),
{
    if keys.len() > 0 {
        let front = keys.drop_last();
        assert forall|i: int| 0 <= i < front.len() && (#[trigger] front[i]).0 == name implies present[i] by {
            assert(keys[i].0 == name);
        }
        lemma_seeds_from(front, present, name);
        let s = seeds(keys, present);
        if names_contain(s, name) {
            let i = choose|i: int| 0 <= i < s.len() && (#[trigger] s[i]).0 == name;
            if i < seeds(front, present).len() {
                assert(seeds(front, present)[i].0 == name);
            } else {
                assert(keys[keys.len() - 1].0 == name);
            }
        }
    }
}

// ── what the settings mean ──────────────────────────────────────────────────
/// The views of settings hold these whole: a text that is there is there with
/// all its characters, and a list with all its texts.
pub proof fn law_config_views(s: Option<String>, cfg: CorpusConfig, env: EnvVars)
    ensures
        opt_view(s) is Some <==> s is Some,
        s is Some ==> opt_view(s)->0 == s->0@,
        cfg@.include_globs.len() == cfg.include_globs@.len(),
        forall|i: int|
            0 <= i < cfg.include_globs@.len() ==> #[trigger] cfg@.include_globs[i]
                == cfg.include_globs@[i]@,
        cfg@.embeddings == cfg.embeddings,
        cfg@.embed_provider == opt_view(cfg.embed_provider),
        cfg@.embed_model == opt_view(cfg.embed_model),
        cfg@.embed_dims is Some <==> cfg.embed_dims is Some,
        cfg.embed_dims is Some ==> cfg@.embed_dims->0 == cfg.embed_dims->0,
        env@.embeddings == opt_view(env.embeddings),
        env@.embed_provider == opt_view(env.embed_provider),
        env@.embed_model == opt_view(env.embed_model),
        env@.embed_dims == opt_view(env.embed_dims),
        env@.include_globs == opt_view(env.include_globs),
{
}

/// By default the files of four kinds are taken in, and search is by text
/// alone.
pub proof fn law_default_config()
    ensures
        default_globs().len() == 4,
        default_globs().contains("**/*.md"@),
        default_globs().contains("**/*.mdx"@),
        default_globs().contains("**/*.txt"@),
        default_globs().contains("**/*.adoc"@),
        default_config().include_globs == default_globs(),
        !default_config().embeddings,
        default_config().embed_provider is None,
        default_config().embed_model is None,
        default_config().embed_dims is None,
{
    assert(default_globs()[0] == "**/*.md"@);
    assert(default_globs()[1] == "**/*.mdx"@);
    assert(default_globs()[2] == "**/*.txt"@);
    assert(default_globs()[3] == "**/*.adoc"@);
}

/// A list of globs is that of its parts around a comma, one after the other; a
/// part without a comma is one glob without the white space at its ends, or
/// none where it is blank.
pub proof fn law_glob_list(a: Seq<char>, b: Seq<char>, part: Seq<char>)
    requires
        !part.contains(','),
    ensures
        glob_list(a.push(',') + b) == glob_list(a) + glob_list(b),
        text::trimmed(part).len() > 0 ==> glob_list(part) == seq![text::trimmed(part)],
        text::trimmed(part).len() == 0 ==> glob_list(part) == Seq::<Seq<char>>::empty(),
{
    let sep = text::Separator::Char(',');
    let f = |p: Seq<char>| text::trimmed(p);
    let keep = |w: Seq<char>| w.len() > 0;
    text::law_split_at_separator(a, ',', b, sep);
    let x = text::pieces(a, sep);
    let y = text::pieces(b, sep);
    assert((x + y).map_values(f) =~= x.map_values(f) + y.map_values(f));
    Seq::filter_distributes_over_add(x.map_values(f), y.map_values(f), keep);
    assert forall|i: int| 0 <= i < part.len() implies !sep.holds(#[trigger] part[i]) by {
        assert(part.contains(part[i]));
    }
    text::law_split_without_separator(part, sep);
    assert(seq![part].map_values(f) =~= seq![text::trimmed(part)]);
    let none = Seq::<Seq<char>>::empty();
    none.lemma_filter_push(text::trimmed(part), keep);
    assert(none.push(text::trimmed(part)) =~= seq![text::trimmed(part)]);
    assert(none.filter(keep) =~= none) by {
        reveal(Seq::filter);
    }
    assert(glob_list(part) == seq![text::trimmed(part)].filter(keep));
}

/// What means yes is `1`, `true` and `on`: in any case, whatever white space
/// stands around it, and nothing else.
pub proof fn law_affirmative(s: Seq<char>, from: int, to: int)
    requires
        0 <= from <= to <= s.len(),
        forall|i: int| 0 <= i < from || to <= i < s.len() ==> text::white_space(#[trigger] s[i]),
    ensures
        affirmative(s.subrange(from, to)) == affirmative(s),
        affirmative(s) <==> {
            let v = text::ascii_lowered(text::trimmed(s));
            v == seq!['1'] || v == seq!['t', 'r', 'u', 'e'] || v == seq!['o', 'n']
        },
{
    text::law_trim_ignores_outer_white_space(s, from, to);
    reveal_strlit("1");
    reveal_strlit("true");
    reveal_strlit("on");
    assert("1"@ =~= seq!['1']);
    assert("true"@ =~= seq!['t', 'r', 'u', 'e']);
    assert("on"@ =~= seq!['o', 'n']);
}

/// What the environment sets: each setting has the value of its variable where
/// that gives one, without the white space at its ends, and is left as it is
/// otherwise.
pub proof fn law_env_values(cfg: CorpusConfigView, env: EnvVarsView)
    ensures
        ({
            let r = with_env(cfg, env);
            &&& env.embeddings matches Some(v) ==> r.embeddings == affirmative(v)
            &&& env.embeddings is None ==> r.embeddings == cfg.embeddings
            &&& env.embed_provider matches Some(v) ==> text::trimmed(v).len() > 0
                ==> r.embed_provider == Some(text::trimmed(v))
            &&& env.embed_provider matches Some(v) ==> text::trimmed(v).len() == 0
                ==> r.embed_provider == cfg.embed_provider
            &&& env.embed_provider is None ==> r.embed_provider == cfg.embed_provider
            &&& env.embed_model matches Some(v) ==> text::trimmed(v).len() > 0 ==> r.embed_model
                == Some(text::trimmed(v))
            &&& env.embed_model matches Some(v) ==> text::trimmed(v).len() == 0 ==> r.embed_model
                == cfg.embed_model
            &&& env.embed_model is None ==> r.embed_model == cfg.embed_model
            &&& env.embed_dims matches Some(v) ==> text::parsed_number(text::trimmed(v)) is Some
                ==> r.embed_dims == text::parsed_number(text::trimmed(v))
            &&& env.embed_dims matches Some(v) ==> text::parsed_number(text::trimmed(v)) is None
                ==> r.embed_dims == cfg.embed_dims
            &&& env.embed_dims is None ==> r.embed_dims == cfg.embed_dims
            &&& env.include_globs matches Some(v) ==> glob_list(v).len() > 0 ==> r.include_globs
                == glob_list(v)
            &&& env.include_globs matches Some(v) ==> glob_list(v).len() == 0 ==> r.include_globs
                == cfg.include_globs
            &&& env.include_globs is None ==> r.include_globs == cfg.include_globs
        }),
{
}

/// A variable is given where it holds a character other than white space.
pub proof fn law_given(v: Seq<char>)
    ensures
        !given(None),
        given(Some(v)) <==> exists|i: int| 0 <= i < v.len() && !text::white_space(#[trigger] v[i]),
{
    let (a, b) = text::lemma_trimmed(v);
    if a < b {
        assert(!text::white_space(v[a]));
    }
}

/// A line gives the text before its first equals sign the text behind it as its
/// value, both without the white space at their ends; but not where the line is
/// a comment, the name is blank, or either holds a null character. A line
/// without an equals sign gives nothing.
pub proof fn law_line_key(before: Seq<char>, behind: Seq<char>)
    requires
        !before.contains('='),
    ensures
        line_key(before) is None,
        ({
            let name = text::trimmed(before);
            let value = text::trimmed(behind);
            line_key(before.push('=') + behind) == if name.len() > 0 && name[0] != '#'
                && !name.contains('\u{0}') && !value.contains('\u{0}') {
                Some((name, value))
            } else {
                None
            }
        }),
{
    let (x, y) = text::lemma_trimmed(before);
    let name = text::trimmed(before);
    text::law_first_place(name, '=');
    assert forall|i: int| 0 <= i < before.len() implies #[trigger] before[i] != '=' by {
        assert(before.contains(before[i]));
    }
    if text::first_place(name, '=') is Some {
        let at = text::first_place(name, '=')->0;
        assert(before[x + at] == '=');
    }
    let line = before.push('=') + behind;
    let n = before.len() as int;
    let (a, b) = text::lemma_trimmed(line);
    let t = text::trimmed(line);
    assert(line[n] == '=');
    assert(a <= n < b) by {
        if !(a <= n < b) {
            assert(text::white_space(line[n]));
        }
    }
    text::law_first_place(t, '=');
    assert(t[n - a] == '=');
    let at = text::first_place(t, '=')->0;
    assert(at == n - a) by {
        if at < n - a {
            assert(t[at] == before[a + at]);
        }
    }
    assert forall|i: int| 0 <= i < a || n <= i < n implies text::white_space(
        #[trigger] before[i],
    ) by {
        assert(line[i] == before[i]);
    }
    text::law_trim_ignores_outer_white_space(before, a, n);
    assert(t.take(at) =~= before.subrange(a, n));
    assert forall|i: int| 0 <= i < 0 || b - n - 1 <= i < behind.len() implies text::white_space(
        #[trigger] behind[i],
    ) by {
        assert(line[n + 1 + i] == behind[i]);
    }
    text::law_trim_ignores_outer_white_space(behind, 0, b - n - 1);
    assert(t.skip(at + 1) =~= behind.subrange(0, b - n - 1));
    assert(!name.contains('=')) by {
        if name.contains('=') {
            let k = name.index_of('=');
            assert(before[x + k] == '=');
        }
    }
    if name.len() > 0 {
        assert(x == a) by {
            if a > x {
                assert(text::white_space(line[x]));
                assert(line[x] == before[x]);
            }
            if a < x {
                assert(text::white_space(before[a]));
                assert(line[a] == before[a]);
            }
        }
        assert(t[0] == name[0]);
    }
}

/// The keys of a file are those of its lines, one after another.
pub proof fn law_file_keys(a: Seq<char>, b: Seq<char>, line: Seq<char>)
    requires
        !line.contains('\n'),
    ensures
        file_keys(a.push('\n') + b) == file_keys(a) + file_keys(b),
        line_key(line) matches Some(key) ==> file_keys(line) == seq![key],
        line_key(line) is None ==> file_keys(line) == Seq::<(Seq<char>, Seq<char>)>::empty(),
{
    let sep = text::Separator::Char('\n');
    let f = |line: Seq<char>| line_key(line);
    text::law_split_at_separator(a, '\n', b, sep);
    lemma_filter_map_add(text::pieces(a, sep), text::pieces(b, sep), f);
    assert forall|i: int| 0 <= i < line.len() implies !sep.holds(#[trigger] line[i]) by {
        assert(line.contains(line[i]));
    }
    text::law_split_without_separator(line, sep);
    Seq::lemma_filter_map_singleton(line, f);
    assert(file_keys(line) == seq![line].filter_map(f));
}

proof fn lemma_filter_map_add<A, B>(a: Seq<A>, b: Seq<A>, f: spec_fn(A) -> Option<B>)
    ensures
        (a + b).filter_map(f) == a.filter_map(f) + b.filter_map(f),
    decreases b.len(),
{
    reveal(Seq::filter_map);
    if b.len() == 0 {
        assert(a + b =~= a);
        assert(a.filter_map(f) + b.filter_map(f) =~= a.filter_map(f));
    } else {
        let front = b.drop_last();
        lemma_filter_map_add(a, front, f);
        let n = (a + b).len() - 1;
        (a + b).lemma_filter_map_take_succ(f, n);
        b.lemma_filter_map_take_succ(f, b.len() - 1);
        assert((a + b).take(n) =~= a + front);
        assert((a + b).take(n + 1) =~= a + b);
        assert(b.take(b.len() - 1) =~= front);
        assert(b.take(b.len() as int) =~= b);
        assert((a + b)[n] == b[b.len() - 1]);
        assert((a + b).filter_map(f) =~= a.filter_map(f) + b.filter_map(f));
    }
}

/// A key more is put into the environment behind those before it where its
/// variable is not set and none of the keys before it has its name; else it
/// changes nothing. The keys before it are put there as they were.
pub proof fn law_one_more_key(
    keys: Seq<(Seq<char>, Seq<char>)>,
    present: Seq<bool>,
    key: (Seq<char>, Seq<char>),
)
    requires
        present.len() > keys.len(),
    ensures
        ({
            let before = seeds(keys, present);
            let after = seeds(keys.push(key), present);
            if present[keys.len() as int] || exists|i: int|
                0 <= i < keys.len() && (#[trigger] keys[i]).0 == key.0 {
                after == before
            } else {
                after == before.push(key)
            }
        }),
        seeds(Seq::empty(), present) == Seq::<(Seq<char>, Seq<char>)>::empty(),
{
    assert(keys.push(key).drop_last() =~= keys);
}

/// A variable can be set where its name is not empty and holds no equals sign
/// and neither holds a null character.
pub proof fn law_settable(name: Seq<char>, value: Seq<char>)
    ensures
        settable((name, value)) <==> name.len() > 0 && (forall|i: int|
            0 <= i < name.len() ==> #[trigger] name[i] != '=' && name[i] != '\u{0}') && (forall|i: int|
            0 <= i < value.len() ==> #[trigger] value[i] != '\u{0}'),
{
    assert(forall|i: int| 0 <= i < name.len() ==> name.contains(#[trigger] name[i]));
    assert(forall|i: int| 0 <= i < value.len() ==> value.contains(#[trigger] value[i]));
}

/// The views of keys hold their names and values, one for one.
pub proof fn law_key_views(keys: Seq<ProviderKey>)
    ensures
        key_views(keys).len() == keys.len(),
        forall|i: int|
            #![trigger key_views(keys)[i]]
            0 <= i < keys.len() ==> key_views(keys)[i].0 == keys[i].name@ && key_views(keys)[i].1
                == keys[i].value@,
{
}

} // verus!
