use corpus::embed::{Provider, RigEmbedder, StubEmbedder};

/// Cosine similarity of two vectors of counts.
fn cosine(a: &[u32], b: &[u32]) -> f32 {
    let dot: f32 = a.iter().zip(b).map(|(x, y)| *x as f32 * *y as f32).sum();
    let na: f32 = a.iter().map(|x| *x as f32 * *x as f32).sum();
    let nb: f32 = b.iter().map(|x| *x as f32 * *x as f32).sum();
    dot / (na.sqrt() * nb.sqrt())
}

#[test]
fn stub_is_deterministic() {
    let e = StubEmbedder::new(64);
    let a = e.embed("executor kinds llm tool");
    let b = e.embed("executor kinds llm tool");
    assert_eq!(a, b);
    assert_eq!(a.len(), 64);
}

#[test]
fn stub_shared_tokens_are_more_similar() {
    let e = StubEmbedder::new(128);
    let q = e.embed("how do I configure the executor");
    let near = e.embed("configure the executor kinds in the config");
    let far = e.embed("unrelated banana zebra sunshine");
    assert!(cosine(&q, &near) > cosine(&q, &far));
}

#[test]
fn rig_rejects_unknown_provider() {
    let r = RigEmbedder::from_config("frobnicate", "x", 768);
    assert!(r.is_err());
    let msg = r.err().map(|e| e.message()).unwrap_or_default();
    assert!(msg.contains("unsupported"), "got: {msg}");
}

#[test]
fn the_unsupported_provider_is_named() {
    let e = RigEmbedder::from_config("OpenAI", "x", 768).err().unwrap();
    assert_eq!(
        e.message(),
        "unsupported embedding provider 'OpenAI' (expected openai | gemini | ollama | openrouter)"
    );
}

#[test]
fn every_provider_is_taken_by_its_name() {
    for (name, provider) in [
        ("openai", Provider::OpenAi),
        ("gemini", Provider::Gemini),
        ("ollama", Provider::Ollama),
        ("openrouter", Provider::OpenRouter),
    ] {
        let e = RigEmbedder::from_config(name, "m", 3).unwrap();
        assert_eq!(e.provider, provider);
        assert_eq!(e.dimensions(), 3);
        assert_eq!(e.model_id(), format!("{name}/m"));
    }
}

#[test]
fn a_vector_of_other_dimensions_is_refused() {
    let e = RigEmbedder::from_config("openai", "text-embedding-3-small", 2).unwrap();
    assert_eq!(e.check(vec![1, 2]), Ok(vec![1, 2]));
    assert_eq!(
        e.check(vec![1, 2, 3]).err().unwrap().message(),
        "dimension mismatch from openai/text-embedding-3-small: got 3, expected 2"
    );
}

#[test]
fn the_stub_counts_tokens_in_hashed_components() {
    // The reference hash of a token, as the component that counts it.
    let bucket = |token: &str| -> usize {
        let mut h: u64 = 1469598103934665603;
        for b in token.bytes() {
            h ^= b as u64;
            h = h.wrapping_mul(1099511628211);
        }
        (h % 16) as usize
    };
    let mut expected = vec![0u32; 16];
    expected[bucket("alpha")] += 2;
    expected[bucket("beta2")] += 1;
    expected[bucket("é")] += 1;
    let e = StubEmbedder::new(16);
    assert_eq!(e.embed("Alpha, beta2 -- é(alpha)"), expected);
    assert_eq!(e.embed("alpha é beta2 ALPHA"), expected);
    assert_eq!(e.model_id(), "stub/hash-16");
    assert_eq!(e.dimensions(), 16);
}

#[test]
fn texts_that_share_a_token_share_a_component() {
    let e = StubEmbedder::new(32);
    let a = e.embed("the executor");
    let b = e.embed("EXECUTOR kinds");
    assert!(a.iter().zip(&b).any(|(x, y)| *x > 0 && *y > 0));
}

#[test]
fn a_stub_without_components_embeds_only_texts_without_tokens() {
    let e = StubEmbedder::new(0);
    assert_eq!(e.try_embed("word"), None);
    assert_eq!(e.try_embed(" -- "), Some(vec![]));
    assert_eq!(StubEmbedder::new(1).try_embed("a b"), Some(vec![2]));
}
