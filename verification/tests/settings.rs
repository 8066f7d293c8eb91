use ncos_assistant::config::AssistantConfig;

#[test]
fn default_settings() {
    let c = AssistantConfig::default();
    assert!(!c.use_remote);
    assert_eq!(c.local_host, "localhost");
    assert_eq!(c.local_port, 11434);
    assert_eq!(c.remote_host, "");
    assert_eq!(c.remote_port, 11434);
    assert_eq!(c.chat_model, "qwen3:4b");
    assert_eq!(c.embed_model, "nomic-embed-text");
    assert_eq!(c.docs_paths, vec!["/usr/share/ncos-assistant/docs".to_string()]);
    assert_eq!(c.top_k, 4);
    assert!(c.show_sources);
}

#[test]
fn active_backend_is_local_by_default() {
    let c = AssistantConfig::default();
    assert_eq!(c.active_backend(), ("localhost", 11434));
}

#[test]
fn active_backend_remote_needs_host() {
    let mut c = AssistantConfig::default();
    c.use_remote = true;
    c.remote_port = 9999;
    assert_eq!(c.active_backend(), ("localhost", 11434));
    c.remote_host = "192.168.1.50".into();
    assert_eq!(c.active_backend(), ("192.168.1.50", 9999));
    c.use_remote = false;
    assert_eq!(c.active_backend(), ("localhost", 11434));
}

#[test]
fn load_picks_entry_or_default() {
    let mut custom = AssistantConfig::default();
    custom.top_k = 7;
    assert_eq!(AssistantConfig::load(Some(Ok(custom.clone()))), custom);
    let mut repaired = AssistantConfig::default();
    repaired.chat_model = "llama3.2:1b".into();
    assert_eq!(AssistantConfig::load(Some(Err(repaired.clone()))), repaired);
    assert_eq!(AssistantConfig::load(None), AssistantConfig::default());
}
