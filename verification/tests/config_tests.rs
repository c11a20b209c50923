use cos_engine::config::{vault_id_of, Config, InitError};

#[test]
fn brain_path_joins_under_home() {
    assert_eq!(
        Config::brain_path("/tmp/cos", "default"),
        "/tmp/cos/brains/default/brain.sqlite"
    );
    assert_eq!(
        Config::brain_path("/tmp/cos/", "work"),
        "/tmp/cos/brains/work/brain.sqlite"
    );
    assert_eq!(Config::brain_path("", "x"), "brains/x/brain.sqlite");
}

#[test]
fn brain_path_absolute_name_replaces_home() {
    assert_eq!(Config::brain_path("/tmp/cos", "/abs"), "/abs/brain.sqlite");
}

#[test]
fn brain_paths_of_different_brains_differ() {
    let a = Config::brain_path("/h", "alpha");
    let b = Config::brain_path("/h", "beta");
    assert_ne!(a, b);
}

#[test]
fn parse_embedder_takes_the_model_field() {
    assert_eq!(
        Config::parse_embedder("ollama:nomic-embed-text"),
        ("nomic-embed-text".to_string(), 768)
    );
    assert_eq!(Config::parse_embedder("mock:hash"), ("hash".to_string(), 768));
    assert_eq!(Config::parse_embedder("a:b:c"), ("b".to_string(), 768));
    assert_eq!(Config::parse_embedder("ollama:"), (String::new(), 768));
}

#[test]
fn parse_embedder_defaults_the_model() {
    assert_eq!(
        Config::parse_embedder("plain"),
        ("nomic-embed-text".to_string(), 768)
    );
    assert_eq!(Config::parse_embedder(""), ("nomic-embed-text".to_string(), 768));
}

#[test]
fn default_home_prefers_cos_home() {
    assert_eq!(
        Config::default_home_from(Some("/x".into()), Some("/home/u".into())),
        "/x"
    );
    assert_eq!(
        Config::default_home_from(None, Some("/home/u".into())),
        "/home/u/.cognitive-os"
    );
    assert_eq!(Config::default_home_from(None, None), ".cognitive-os");
}

#[test]
fn init_names_vaults_in_order() {
    let cfg = Config::init_config(
        None,
        "ollama:nomic-embed-text".into(),
        "http://127.0.0.1:11434".into(),
        vec!["/a".into(), "/b".into(), "/c".into()],
    )
    .unwrap();
    assert_eq!(cfg.name, "default");
    assert_eq!(cfg.embed_dims, 768);
    assert_eq!(cfg.embedder, "ollama:nomic-embed-text");
    assert_eq!(cfg.embedder_url, "http://127.0.0.1:11434");
    let ids: Vec<&str> = cfg.vaults.iter().map(|v| v.id.as_str()).collect();
    assert_eq!(ids, vec!["fixture", "vault-1", "vault-2"]);
    let paths: Vec<&str> = cfg.vaults.iter().map(|v| v.path.as_str()).collect();
    assert_eq!(paths, vec!["/a", "/b", "/c"]);
}

#[test]
fn init_keeps_a_given_name() {
    let cfg = Config::init_config(Some("work".into()), "mock:hash".into(), "u".into(), vec!["/a".into()])
        .unwrap();
    assert_eq!(cfg.name, "work");
}

#[test]
fn init_without_vaults_is_refused() {
    let r = Config::init_config(None, "mock:hash".into(), "u".into(), Vec::new());
    assert!(matches!(r, Err(InitError::NoVaults)));
}

#[test]
fn vault_ids_are_distinct() {
    let ids: Vec<String> = (0..120).map(vault_id_of).collect();
    assert_eq!(ids[10], "vault-10");
    assert_eq!(ids[101], "vault-101");
    for i in 0..ids.len() {
        for j in (i + 1)..ids.len() {
            assert_ne!(ids[i], ids[j]);
        }
    }
}
