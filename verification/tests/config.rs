use corpus::config::{
    default_include, keys_to_seed, provider_keys, resolve_data_dir, resolve_keys_file,
    CorpusConfig, DataDir, EnvVars, KeysFile, ProviderKey,
};

fn no_env() -> EnvVars {
    EnvVars {
        embeddings: None,
        embed_provider: None,
        embed_model: None,
        embed_dims: None,
        include_globs: None,
    }
}

fn set(s: &str) -> Option<String> {
    Some(s.to_string())
}

fn key(name: &str, value: &str) -> ProviderKey {
    ProviderKey { name: name.to_string(), value: value.to_string() }
}

#[test]
fn defaults_are_text_only() {
    let cfg = CorpusConfig::load(None, &no_env());
    assert_eq!(cfg, CorpusConfig::default());
    assert_eq!(cfg.include_globs, vec!["**/*.md", "**/*.mdx", "**/*.txt", "**/*.adoc"]);
    assert_eq!(default_include(), cfg.include_globs);
    assert!(!cfg.embeddings);
    assert_eq!(cfg.embed_provider, None);
    assert_eq!(cfg.embed_model, None);
    assert_eq!(cfg.embed_dims, None);
}

#[test]
fn a_file_replaces_the_defaults_and_the_environment_goes_over_it() {
    let file = CorpusConfig {
        include_globs: vec!["docs/*.md".to_string()],
        embeddings: true,
        embed_provider: set("openai"),
        embed_model: set("text-embedding-3-small"),
        embed_dims: Some(1536),
    };
    assert_eq!(CorpusConfig::load(Some(file.clone()), &no_env()), file);
    let env = EnvVars {
        embeddings: set("off"),
        embed_provider: set(" gemini "),
        embed_model: set("\ttext-embedding-004\n"),
        embed_dims: set(" 768 "),
        include_globs: set(" **/*.rst , ,*.txt,"),
    };
    let cfg = CorpusConfig::load(Some(file), &env);
    assert!(!cfg.embeddings);
    assert_eq!(cfg.embed_provider, set("gemini"));
    assert_eq!(cfg.embed_model, set("text-embedding-004"));
    assert_eq!(cfg.embed_dims, Some(768));
    assert_eq!(cfg.include_globs, vec!["**/*.rst", "*.txt"]);
}

#[test]
fn embeddings_are_switched_on_by_three_words() {
    for (value, on) in [
        ("1", true),
        ("true", true),
        (" On\n", true),
        ("TRUE", true),
        ("yes", false),
        ("", false),
        ("0", false),
    ] {
        let env = EnvVars { embeddings: set(value), ..no_env() };
        assert_eq!(CorpusConfig::load(None, &env).embeddings, on, "for {value:?}");
    }
}

#[test]
fn blank_and_unreadable_variables_change_nothing() {
    let env = EnvVars {
        embeddings: None,
        embed_provider: set("  "),
        embed_model: set(""),
        embed_dims: set("many"),
        include_globs: set(" , ,"),
    };
    assert_eq!(CorpusConfig::load(None, &env), CorpusConfig::default());
}

#[test]
fn the_data_dir_variable_is_used_verbatim() {
    assert_eq!(resolve_data_dir(None), DataDir::InRepository);
    assert_eq!(resolve_data_dir(set(" \t")), DataDir::InRepository);
    assert_eq!(resolve_data_dir(set(" /data ")), DataDir::Given(" /data ".to_string()));
}

#[test]
fn the_keys_file_variable_is_used_verbatim() {
    assert_eq!(resolve_keys_file(None), KeysFile::InHome);
    assert_eq!(resolve_keys_file(set("")), KeysFile::InHome);
    assert_eq!(resolve_keys_file(set("k.env")), KeysFile::Given("k.env".to_string()));
}

#[test]
fn keys_are_read_line_by_line() {
    let raw = "# comment\n\nOPENAI_API_KEY = first value \r\n  # B=1\nnot a key\nA=b=c\n=x\nE=\n";
    assert_eq!(
        provider_keys(raw),
        vec![
            key("OPENAI_API_KEY", "first value"),
            key("A", "b=c"),
            key("E", ""),
        ]
    );
    assert!(provider_keys("").is_empty());
}

#[test]
fn keys_that_cannot_be_set_are_left_out() {
    assert!(provider_keys("=x\n = y\nA\0B=1\nC=a\0b\n").is_empty());
    assert_eq!(provider_keys("C=a\0b\nC=ok\n"), vec![key("C", "ok")]);
}

#[test]
fn variables_that_are_set_win() {
    let keys = vec![key("A", "1"), key("B", "2"), key("A", "3"), key("C", "4")];
    assert_eq!(
        keys_to_seed(&keys, &vec![false, true, false, false]),
        vec![key("A", "1"), key("C", "4")]
    );
    assert!(keys_to_seed(&keys, &vec![true, true, true, true]).is_empty());
}
