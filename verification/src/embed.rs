//! Embedding models: which one a configuration names, and the deterministic
//! stub that needs no service.

use vstd::prelude::*;

use crate::text;

verus! {

// ── models of a provider ────────────────────────────────────────────────────
/// A service that embeds texts.
#[derive(Debug, Clone, Copy, PartialEq, Eq, Structural)]
pub enum Provider {
    OpenAi,
    Gemini,
    Ollama,
    OpenRouter,
}

/// The name of a provider in a configuration.
pub open spec fn slug(p: Provider) -> Seq<char> {
    match p {
        Provider::OpenAi => "openai"@,
        Provider::Gemini => "gemini"@,
        Provider::Ollama => "ollama"@,
        Provider::OpenRouter => "openrouter"@,
    }
}

/// The four providers have four names.
pub proof fn law_slugs_distinct(p: Provider, q: Provider)
    ensures
        slug(p) == slug(q) <==> p == q,
{
    reveal_strlit("openai");
    reveal_strlit("gemini");
    reveal_strlit("ollama");
    reveal_strlit("openrouter");
    assert(slug(Provider::OpenAi)[0] == 'o' && slug(Provider::OpenAi)[1] == 'p' && slug(
        Provider::OpenAi,
    ).len() == 6);
    assert(slug(Provider::Gemini)[0] == 'g');
    assert(slug(Provider::Ollama)[1] == 'l');
    assert(slug(Provider::OpenRouter).len() == 10);
}

/// A provider name that is none.
#[derive(Debug, Clone, PartialEq, Eq)]
pub struct UnsupportedProvider {
    pub provider: String,
}

impl UnsupportedProvider {
    /// The message for the caller.
    pub open spec fn text(self) -> Seq<char> {
        "unsupported embedding provider '"@ + self.provider@
            + "' (expected openai | gemini | ollama | openrouter)"@
    }

    /// The message for the caller.
    pub fn message(&self) -> (r: String)
        ensures
            r@ == self.text(),
    {
        let mut m = "unsupported embedding provider '".to_owned();
        m.append(self.provider.as_str());
        m.append("' (expected openai | gemini | ollama | openrouter)");
        m
    }
}

impl Provider {
    /// The provider of this name.
    pub fn parse(name: &str) -> (r: Result<Provider, UnsupportedProvider>)
        ensures
            r is Ok <==> exists|p: Provider| #[trigger] slug(p) == name@,
            r matches Ok(p) ==> slug(p) == name@,
            r matches Err(e) ==> e.provider@ == name@,
    {
        if text::text_eq(name, "openai") {
            assert(slug(Provider::OpenAi) == name@);
            Ok(Provider::OpenAi)
        } else if text::text_eq(name, "gemini") {
            assert(slug(Provider::Gemini) == name@);
            Ok(Provider::Gemini)
        } else if text::text_eq(name, "ollama") {
            assert(slug(Provider::Ollama) == name@);
            Ok(Provider::Ollama)
        } else if text::text_eq(name, "openrouter") {
            assert(slug(Provider::OpenRouter) == name@);
            Ok(Provider::OpenRouter)
        } else {
            Err(UnsupportedProvider { provider: name.to_owned() })
        }
    }

    /// The name of this provider.
    pub fn name(self) -> (r: String)
        ensures
            r@ == slug(self),
    {
        match self {
            Provider::OpenAi => "openai".to_owned(),
            Provider::Gemini => "gemini".to_owned(),
            Provider::Ollama => "ollama".to_owned(),
            Provider::OpenRouter => "openrouter".to_owned(),
        }
    }
}

/// A model of a provider, with the number of dimensions it is asked for.
#[derive(Debug, Clone, PartialEq, Eq)]
pub struct RigEmbedder {
    pub provider: Provider,
    pub model: String,
    pub dims: usize,
}

/// A vector that does not have the expected number of dimensions.
#[derive(Debug, Clone, PartialEq, Eq)]
pub struct DimensionMismatch {
    pub model_id: String,
    pub got: usize,
    pub expected: usize,
}

impl DimensionMismatch {
    /// The message for the caller.
    pub fn message(&self) -> (r: String)
        ensures
            r@ == "dimension mismatch from "@ + self.model_id@ + ": got "@ + text::decimal(
                self.got as nat,
            ) + ", expected "@ + text::decimal(self.expected as nat),
    {
        let mut m = "dimension mismatch from ".to_owned();
        m.append(self.model_id.as_str());
        m.append(": got ");
        text::push_decimal(&mut m, self.got);
        m.append(", expected ");
        text::push_decimal(&mut m, self.expected);
        m
    }
}

impl RigEmbedder {
    /// The identifier of this model: `provider/model`.
    pub open spec fn id(self) -> Seq<char> {
        slug(self.provider) + "/"@ + self.model@
    }

    /// The embedder for `(provider, model, dims)`. `provider` is one of
    /// `openai`, `gemini`, `ollama` and `openrouter`.
    pub fn from_config(provider: &str, model: &str, dims: usize) -> (r: Result<
        RigEmbedder,
        UnsupportedProvider,
    >)
        ensures
            r is Ok <==> exists|p: Provider| #[trigger] slug(p) == provider@,
            r matches Ok(e) ==> slug(e.provider) == provider@ && e.model@ == model@ && e.dims
                == dims,
            r matches Err(e) ==> e.provider@ == provider@,
    {
        match Provider::parse(provider) {
            Ok(p) => Ok(RigEmbedder { provider: p, model: model.to_owned(), dims }),
            Err(e) => Err(e),
        }
    }

    /// Takes a vector from the service, given by the bits of its components,
    /// if it has the expected number of dimensions.
    pub fn check(&self, vector: Vec<u32>) -> (r: Result<Vec<u32>, DimensionMismatch>)
        ensures
            r is Ok <==> vector@.len() == self.dims,
            r matches Ok(v) ==> v@ == vector@,
            r matches Err(e) ==> e.model_id@ == self.id() && e.got == vector@.len() && e.expected
                == self.dims,
    {
        if vector.len() == self.dims {
            Ok(vector)
        } else {
            Err(
                DimensionMismatch {
                    model_id: self.model_id(),
                    got: vector.len(),
                    expected: self.dims,
                },
            )
        }
    }

    /// The number of dimensions.
    pub fn dimensions(&self) -> (r: usize)
        ensures
            r == self.dims,
    {
        self.dims
    }

    /// The identifier of this model, by which a change of model is detected.
    pub fn model_id(&self) -> (r: String)
        ensures
            r@ == self.id(),
    {
        let mut id = self.provider.name();
        id.append("/");
        id.append(self.model.as_str());
        id
    }
}

// ── the stub ────────────────────────────────────────────────────────────────
/// The greatest count that a component of a stub vector reaches: from here on
/// adding one to a 32-bit floating point number has no effect.
pub const STUB_COUNT_CAP: u32 = 16777216;

/// The 64-bit FNV-1a hash of a byte sequence, from the stub's offset basis.
pub open spec fn fnv(bytes: Seq<u8>) -> u64
    decreases bytes.len(),
{
    if bytes.len() == 0 {
        1469598103934665603
    } else {
        (fnv(bytes.drop_last()) ^ bytes.last() as u64).wrapping_mul(1099511628211)
    }
}

/// The tokens of a text: its maximal runs of letters and numbers.
pub open spec fn tokens(s: Seq<char>) -> Seq<Seq<char>> {
    text::pieces(s, text::Separator::NonAlphanumeric).filter(|w: Seq<char>| w.len() > 0)
}

/// The component that a token counts in.
pub open spec fn bucket(token: Seq<char>, dims: nat) -> int {
    fnv(vstd::utf8::encode_utf8(text::ascii_lowered(token))) as int % dims as int
}

/// How many of these tokens count in a component.
pub open spec fn bucket_count(tokens: Seq<Seq<char>>, dims: nat, component: int) -> nat
    decreases tokens.len(),
{
    if tokens.len() == 0 {
        0
    } else if bucket(tokens.last(), dims) == component {
        bucket_count(tokens.drop_last(), dims, component) + 1
    } else {
        bucket_count(tokens.drop_last(), dims, component)
    }
}

/// The bag-of-words vector of a list of tokens.
pub open spec fn stub_vector(tokens: Seq<Seq<char>>, dims: nat) -> Seq<u32> {
    Seq::new(
        dims,
        |i: int|
            if bucket_count(tokens, dims, i) < STUB_COUNT_CAP {
                bucket_count(tokens, dims, i) as u32
            } else {
                STUB_COUNT_CAP
            },
    )
}

/// A deterministic embedder that needs no service: a hashed bag of words, so
/// that texts which share tokens land near each other under cosine.
#[derive(Debug, Clone, PartialEq, Eq)]
pub struct StubEmbedder {
    pub dims: usize,
}

fn fnv_of(s: &str) -> (r: u64)
    ensures
        r == fnv(vstd::utf8::encode_utf8(s@)),
{
    let bytes = s.as_bytes();
    let mut h: u64 = 1469598103934665603;
    let mut i: usize = 0;
    assert(bytes@.take(0) =~= Seq::empty());
    while i < bytes.len()
        invariant
            i <= bytes@.len(),
            h == fnv(bytes@.take(i as int)),
        decreases bytes@.len() - i,
    {
        assert(bytes@.take(i + 1).drop_last() =~= bytes@.take(i as int));
        h = (h ^ bytes[i] as u64).wrapping_mul(1099511628211);
        i = i + 1;
    }
    assert(bytes@.take(i as int) =~= bytes@);
    h
}

impl StubEmbedder {
    pub fn new(dims: usize) -> (r: StubEmbedder)
        ensures
            r.dims == dims,
    {
        StubEmbedder { dims }
    }

    /// The vector of a text. The components are counts, each the whole number
    /// that the floating point component is.
    pub fn embed(&self, s: &str) -> (r: Vec<u32>)
        requires
            self.dims > 0 || tokens(s@).len() == 0,
        ensures
            r@ == stub_vector(tokens(s@), self.dims as nat),
    {
        let words = text::non_empty(text::split(s, text::Separator::NonAlphanumeric));
        let ghost all = tokens(s@);
        let dims = self.dims;
        let mut v: Vec<u32> = vec![0u32; dims];
        assert(v@ =~= stub_vector(all.take(0), dims as nat));
        let mut i: usize = 0;
        while i < words.len()
            invariant
                i <= words@.len(),
                text::texts(words@) == all,
                dims > 0 || all.len() == 0,
                v@ == stub_vector(all.take(i as int), dims as nat),
            decreases words@.len() - i,
        {
            let lower = text::to_ascii_lower(words[i].as_str());
            assert(text::texts(words@)[i as int] == words@[i as int]@);
            assert(dims > 0);
            let at = (fnv_of(lower.as_str()) % dims as u64) as usize;
            assert(at == bucket(all[i as int], dims as nat));
            assert(all.take(i + 1).drop_last() =~= all.take(i as int));
            let count = v[at];
            if count < STUB_COUNT_CAP {
                v[at] = count + 1;
            }
            assert(v@ =~= stub_vector(all.take(i + 1), dims as nat));
            i = i + 1;
        }
        assert(all.take(i as int) =~= all);
        v
    }

    /// The vector of a text, or none where the text has tokens but there is no
    /// component to count them in.
    pub fn try_embed(&self, s: &str) -> (r: Option<Vec<u32>>)
        ensures
            r is None <==> self.dims == 0 && tokens(s@).len() > 0,
            r matches Some(v) ==> v@ == stub_vector(tokens(s@), self.dims as nat),
    {
        if self.dims == 0 {
            let words = text::non_empty(text::split(s, text::Separator::NonAlphanumeric));
            assert(text::texts(words@) == tokens(s@));
            if words.len() > 0 {
                return None;
            }
        }
        Some(self.embed(s))
    }

    /// The number of dimensions.
    pub fn dimensions(&self) -> (r: usize)
        ensures
            r == self.dims,
    {
        self.dims
    }

    /// The identifier of the stub.
    pub fn model_id(&self) -> (r: String)
        ensures
            r@ == "stub/hash-"@ + text::decimal(self.dims as nat),
    {
        let mut id = "stub/hash-".to_owned();
        text::push_decimal(&mut id, self.dims);
        id
    }
}

proof fn lemma_count_without(words: Seq<Seq<char>>, at: int, dims: nat, component: int)
    requires
        0 <= at < words.len(),
    ensures
        bucket_count(words, dims, component) == bucket_count(words.remove(at), dims, component)
            + if bucket(words[at], dims) == component {
            1nat
        } else {
            0
        },
    decreases words.len(),
{
    if at == words.len() - 1 {
        assert(words.remove(at) =~= words.drop_last());
    } else {
        lemma_count_without(words.drop_last(), at, dims, component);
        assert(words.remove(at).drop_last() =~= words.drop_last().remove(at));
        assert(words.remove(at).last() == words.last());
    }
}

proof fn lemma_count_bag(a: Seq<Seq<char>>, b: Seq<Seq<char>>, dims: nat, component: int)
    requires
        a.to_multiset() == b.to_multiset(),
    ensures
        bucket_count(a, dims, component) == bucket_count(b, dims, component),
    decreases a.len(),
{
    a.to_multiset_ensures();
    b.to_multiset_ensures();
    if a.len() > 0 {
        let t = a.last();
        assert(a.contains(t));
        assert(a.to_multiset().count(t) > 0);
        assert(b.contains(t));
        let at = b.index_of(t);
        assert(a.remove(a.len() - 1) =~= a.drop_last());
        lemma_count_bag(a.drop_last(), b.remove(at), dims, component);
        lemma_count_without(b, at, dims, component);
    }
}

/// Tokens in lower case, as the stub counts them.
pub open spec fn lowered(words: Seq<Seq<char>>) -> Seq<Seq<char>> {
    words.map_values(|w: Seq<char>| text::ascii_lowered(w))
}

proof fn lemma_count_lowered(words: Seq<Seq<char>>, dims: nat, component: int)
    ensures
        bucket_count(lowered(words), dims, component) == bucket_count(words, dims, component),
    decreases words.len(),
{
    if words.len() > 0 {
        let w = words.last();
        assert(text::ascii_lowered(text::ascii_lowered(w)) =~= text::ascii_lowered(w));
        assert(lowered(words).last() == text::ascii_lowered(w));
        assert(lowered(words).drop_last() =~= lowered(words.drop_last()));
        lemma_count_lowered(words.drop_last(), dims, component);
    }
}

/// The stub is a bag of words: texts with the same tokens up to the case of
/// ASCII letters, each as often, have the same vector, in whatever order the
/// tokens come.
pub proof fn law_stub_bag_of_words(a: Seq<Seq<char>>, b: Seq<Seq<char>>, dims: nat)
    requires
        lowered(a).to_multiset() == lowered(b).to_multiset(),
    ensures
        stub_vector(a, dims) == stub_vector(b, dims),
{
    assert forall|i: int| 0 <= i < dims implies bucket_count(a, dims, i) == bucket_count(
        b,
        dims,
        i,
    ) by {
        lemma_count_bag(lowered(a), lowered(b), dims, i);
        lemma_count_lowered(a, dims, i);
        lemma_count_lowered(b, dims, i);
    }
    assert(stub_vector(a, dims) =~= stub_vector(b, dims));
}

/// Texts that share a token, up to the case of ASCII letters, share a component
/// in which both vectors are positive.
pub proof fn law_stub_shared_token(
    a: Seq<Seq<char>>,
    i: int,
    b: Seq<Seq<char>>,
    j: int,
    dims: nat,
)
    requires
        dims > 0,
        0 <= i < a.len(),
        0 <= j < b.len(),
        text::ascii_lowered(a[i]) == text::ascii_lowered(b[j]),
    ensures
        0 <= bucket(a[i], dims) < dims,
        stub_vector(a, dims)[bucket(a[i], dims)] > 0,
        stub_vector(b, dims)[bucket(a[i], dims)] > 0,
{
    lemma_count_without(a, i, dims, bucket(a[i], dims));
    lemma_count_without(b, j, dims, bucket(a[i], dims));
}

/// The names of the providers.
pub proof fn law_slugs()
    ensures
        slug(Provider::OpenAi) == "openai"@,
        slug(Provider::Gemini) == "gemini"@,
        slug(Provider::Ollama) == "ollama"@,
        slug(Provider::OpenRouter) == "openrouter"@,
{
}

/// The identifier of a model is the name of its provider, a slash and its own
/// name whole.
pub proof fn law_model_id(e: RigEmbedder)
    ensures
        e.id().len() == slug(e.provider).len() + 1 + e.model@.len(),
        e.id().take(slug(e.provider).len() as int) == slug(e.provider),
        e.id()[slug(e.provider).len() as int] == '/',
        e.id().skip(slug(e.provider).len() as int + 1) == e.model@,
{
    reveal_strlit("/");
    assert(e.id().take(slug(e.provider).len() as int) =~= slug(e.provider));
    assert(e.id().skip(slug(e.provider).len() as int + 1) =~= e.model@);
}

/// The message on an unsupported provider quotes it whole.
pub proof fn law_unsupported_provider_text(e: UnsupportedProvider)
    ensures
        ({
            let start = "unsupported embedding provider '"@;
            let end = "' (expected openai | gemini | ollama | openrouter)"@;
            &&& e.text().len() == start.len() + e.provider@.len() + end.len()
            &&& e.text().take(start.len() as int) == start
            &&& e.text().skip(start.len() as int).take(e.provider@.len() as int) == e.provider@
            &&& e.text().skip((start.len() + e.provider@.len()) as int) == end
        }),
{
    let start = "unsupported embedding provider '"@;
    let end = "' (expected openai | gemini | ollama | openrouter)"@;
    assert(e.text().take(start.len() as int) =~= start);
    assert(e.text().skip(start.len() as int).take(e.provider@.len() as int) =~= e.provider@);
    assert(e.text().skip((start.len() + e.provider@.len()) as int) =~= end);
}

/// A byte more changes the hash by exclusive or and a product, whatever came
/// before it.
pub proof fn law_hash_step(bytes: Seq<u8>, b: u8)
    ensures
        fnv(Seq::empty()) == 1469598103934665603u64,
        fnv(bytes.push(b)) == (fnv(bytes) ^ (b as u64)).wrapping_mul(1099511628211u64),
{
    assert(bytes.push(b).drop_last() =~= bytes);
}

/// The tokens of a text are those of its parts around a character that is
/// neither a letter nor a number, one after the other; a text of letters and
/// numbers is one token, however long, and the empty text has none.
pub proof fn law_tokens(a: Seq<char>, c: char, b: Seq<char>, token: Seq<char>)
    requires
        !text::alphanumeric(c),
        forall|i: int| 0 <= i < token.len() ==> text::alphanumeric(#[trigger] token[i]),
    ensures
        tokens(a.push(c) + b) == tokens(a) + tokens(b),
        token.len() > 0 ==> tokens(token) == seq![token],
        token.len() == 0 ==> tokens(token) == Seq::<Seq<char>>::empty(),
{
    let sep = text::Separator::NonAlphanumeric;
    let keep = |w: Seq<char>| w.len() > 0;
    text::law_split_at_separator(a, c, b, sep);
    Seq::filter_distributes_over_add(text::pieces(a, sep), text::pieces(b, sep), keep);
    text::law_split_without_separator(token, sep);
    let none = Seq::<Seq<char>>::empty();
    none.lemma_filter_push(token, keep);
    assert(none.push(token) =~= seq![token]);
    assert(none.filter(keep) =~= none) by {
        reveal(Seq::filter);
    }
    assert(tokens(token) == seq![token].filter(keep));
}

/// A token counts in one component, that of the hash of its lower case; so the
/// case of its letters makes no difference.
pub proof fn law_bucket(token: Seq<char>, dims: nat)
    requires
        dims > 0,
    ensures
        0 <= bucket(token, dims) < dims,
        bucket(token, dims) == fnv(vstd::utf8::encode_utf8(text::ascii_lowered(token))) as int
            % dims as int,
        bucket(text::ascii_lowered(token), dims) == bucket(token, dims),
{
    assert(text::ascii_lowered(text::ascii_lowered(token)) =~= text::ascii_lowered(token));
}

/// Every token counts once, in its own component: the counts of two lists of
/// tokens add up, and so does every component of a vector, up to the greatest
/// count.
pub proof fn law_stub_counts(a: Seq<Seq<char>>, b: Seq<Seq<char>>, token: Seq<char>, dims: nat)
    ensures
        stub_vector(a, dims).len() == dims,
        forall|i: int|
            0 <= i < dims ==> #[trigger] bucket_count(a + b, dims, i) == bucket_count(a, dims, i)
                + bucket_count(b, dims, i),
        forall|i: int|
            0 <= i < dims ==> #[trigger] bucket_count(seq![token], dims, i) == if bucket(token, dims)
                == i {
                1nat
            } else {
                0
            },
        forall|i: int|
            0 <= i < dims ==> #[trigger] bucket_count(Seq::empty(), dims, i) == 0,
        forall|i: int|
            0 <= i < dims && bucket_count(a, dims, i) <= 16777216 ==> #[trigger] stub_vector(
                a,
                dims,
            )[i] == bucket_count(a, dims, i),
        forall|i: int|
            0 <= i < dims && bucket_count(a, dims, i) > 16777216 ==> #[trigger] stub_vector(
                a,
                dims,
            )[i] == 16777216,
{
    assert forall|i: int| 0 <= i < dims implies #[trigger] bucket_count(a + b, dims, i)
        == bucket_count(a, dims, i) + bucket_count(b, dims, i) by {
        lemma_count_add(a, b, dims, i);
    }
    assert(seq![token].drop_last() =~= Seq::<Seq<char>>::empty());
    reveal_with_fuel(bucket_count, 2);
}

proof fn lemma_count_add(a: Seq<Seq<char>>, b: Seq<Seq<char>>, dims: nat, component: int)
    ensures
        bucket_count(a + b, dims, component) == bucket_count(a, dims, component) + bucket_count(
            b,
            dims,
            component,
        ),
    decreases b.len(),
{
    if b.len() == 0 {
        assert(a + b =~= a);
    } else {
        lemma_count_add(a, b.drop_last(), dims, component);
        assert((a + b).drop_last() =~= a + b.drop_last());
        assert((a + b).last() == b.last());
    }
}

} // verus!
