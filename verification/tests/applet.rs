use ncos_assistant::app::{
    Action, AssistantState, ChatEntry, ChatEvent, IndexStatus, Message, Role, APP_ID,
};
use ncos_assistant::config::AssistantConfig;
use ncos_assistant::rag::index::{FileTable, IndexSummary};
use ncos_assistant::rag::IndexEvent;

fn fresh() -> AssistantState {
    AssistantState::init(AssistantConfig::default(), None)
}

fn one_file(mtime: u64) -> FileTable {
    let mut t = FileTable::new();
    t.insert("/d/a.md".to_string(), mtime);
    t
}

fn summary(model: &str) -> IndexSummary {
    IndexSummary { embed_model: model.to_string(), files: one_file(1), chunks: 5 }
}

#[test]
fn app_id() {
    assert_eq!(APP_ID, "io.github.exothermic88.ncos-assistant");
}

#[test]
fn init_reflects_index() {
    let s = fresh();
    assert_eq!(s.index_status, IndexStatus::NotBuilt);
    assert_eq!(s.remote_port_text, "11434");
    let s = AssistantState::init(AssistantConfig::default(), Some(summary("nomic-embed-text")));
    assert_eq!(s.index_status, IndexStatus::Ready { chunks: 5 });
}

#[test]
fn send_adds_prompt_and_empty_answer() {
    let mut s = fresh();
    s.update(Message::InputChanged("  how do I update?  ".into()));
    let actions = s.update(Message::Send);
    assert_eq!(s.input, "");
    assert!(s.streaming);
    assert_eq!(s.history.len(), 2);
    assert_eq!(s.history[0].role, Role::User);
    assert_eq!(s.history[0].content, "how do I update?");
    assert_eq!(s.history[1].role, Role::Assistant);
    assert_eq!(s.history[1].content, "");
    match &actions[..] {
        [Action::StartChat { history, prompt }] => {
            assert!(history.is_empty());
            assert_eq!(prompt, "how do I update?");
        }
        other => panic!("unexpected {:?}", other),
    }
}

#[test]
fn blank_or_busy_send_is_ignored() {
    let mut s = fresh();
    s.update(Message::InputChanged("   ".into()));
    assert!(s.update(Message::Send).is_empty());
    assert!(s.history.is_empty());
    s.update(Message::InputChanged("q".into()));
    s.update(Message::Send);
    s.update(Message::InputChanged("again".into()));
    assert!(s.update(Message::Send).is_empty());
    assert_eq!(s.input, "again");
    assert_eq!(s.history.len(), 2);
}

#[test]
fn tokens_sources_and_done() {
    let mut s = fresh();
    s.update(Message::InputChanged("q".into()));
    s.update(Message::Send);
    s.update(Message::Chat(ChatEvent::Sources(vec!["a.md > Intro".into()])));
    s.update(Message::Chat(ChatEvent::Token("Hel".into())));
    s.update(Message::Chat(ChatEvent::Token("lo".into())));
    s.update(Message::Chat(ChatEvent::Done));
    assert!(!s.streaming);
    assert_eq!(s.history[1].content, "Hello");
    assert_eq!(s.history[1].sources, vec!["a.md > Intro".to_string()]);
}

#[test]
fn failure_drops_empty_answer() {
    let mut s = fresh();
    s.update(Message::InputChanged("q".into()));
    s.update(Message::Send);
    s.update(Message::Chat(ChatEvent::Failed("Ollama error: x".into())));
    assert!(!s.streaming);
    assert_eq!(s.history.len(), 1);
    assert_eq!(s.last_error, Some("Ollama error: x".to_string()));
}

#[test]
fn history_window_replays_last_twelve_non_empty() {
    let mut s = fresh();
    for i in 0..8 {
        s.history.push(ChatEntry { role: Role::User, content: format!("q{i}"), sources: vec![] });
        s.history.push(ChatEntry { role: Role::Assistant, content: String::new(), sources: vec![] });
    }
    s.update(Message::InputChanged("next".into()));
    let actions = s.update(Message::Send);
    match &actions[..] {
        [Action::StartChat { history, .. }] => {
            let contents: Vec<&str> = history.iter().map(|m| m.content.as_str()).collect();
            assert_eq!(contents, vec!["q2", "q3", "q4", "q5", "q6", "q7"]);
            assert!(history.iter().all(|m| m.role == "user"));
        }
        other => panic!("unexpected {:?}", other),
    }
}

#[test]
fn stop_and_clear() {
    let mut s = fresh();
    s.update(Message::InputChanged("q".into()));
    s.update(Message::Send);
    let a = s.update(Message::StopGeneration);
    assert!(matches!(&a[..], [Action::AbortChat]));
    assert!(!s.streaming);
    assert!(s.update(Message::StopGeneration).is_empty());
    s.update(Message::ClearChat);
    assert!(s.history.is_empty());
    assert_eq!(s.last_error, None);
}

#[test]
fn popup_opens_builds_and_closes() {
    let mut s = fresh();
    let a = s.update(Message::TogglePopup(7));
    assert!(matches!(
        &a[..],
        [Action::OpenPopup(7), Action::CheckHealth, Action::FocusInput, Action::BuildIndex]
    ));
    assert_eq!(s.index_status, IndexStatus::Building { done: 0, total: 0 });
    let a = s.update(Message::TogglePopup(8));
    assert!(matches!(&a[..], [Action::ClosePopup(7)]));
    let a = s.update(Message::TogglePopup(9));
    assert!(matches!(&a[..], [Action::OpenPopup(9), Action::CheckHealth, Action::FocusInput]));
    s.update(Message::PopupClosed(9));
    let a = s.update(Message::TogglePopup(10));
    assert!(matches!(a[0], Action::OpenPopup(10)));
}

#[test]
fn popup_with_index_scans_then_decides() {
    let mut s = AssistantState::init(AssistantConfig::default(), Some(summary("nomic-embed-text")));
    let a = s.update(Message::TogglePopup(1));
    assert!(matches!(&a[..], [_, _, _, Action::ScanDocs]));
    assert!(s.update(Message::DocsScanned(one_file(1))).is_empty());
    let a = s.update(Message::DocsScanned(one_file(2)));
    assert!(matches!(&a[..], [Action::BuildIndex]));
}

#[test]
fn index_events_update_status() {
    let mut s = fresh();
    s.update(Message::Index(IndexEvent::Progress { done: 16, total: 40 }));
    assert_eq!(s.index_status, IndexStatus::Building { done: 16, total: 40 });
    s.update(Message::Index(IndexEvent::Finished(summary("m"))));
    assert_eq!(s.index_status, IndexStatus::Ready { chunks: 5 });
    s.update(Message::Index(IndexEvent::Failed("nope".into())));
    assert_eq!(s.index_status, IndexStatus::Failed("nope".into()));
}

#[test]
fn settings_edits_are_saved() {
    let mut s = fresh();
    let a = s.update(Message::SetUseRemote(true));
    assert!(matches!(&a[..], [Action::SaveConfig, Action::CheckHealth]));
    assert!(s.config().use_remote);
    s.update(Message::SetRemoteHost("10.0.0.9".into()));
    s.update(Message::SetChatModel("llama3.2:1b".into()));
    s.update(Message::SetEmbedModel("embeddinggemma:300m".into()));
    s.update(Message::SetTopK(6));
    s.update(Message::SetShowSources(false));
    let c = s.config();
    assert_eq!(c.remote_host, "10.0.0.9");
    assert_eq!(c.chat_model, "llama3.2:1b");
    assert_eq!(c.embed_model, "embeddinggemma:300m");
    assert_eq!(c.top_k, 6);
    assert!(!c.show_sources);
    assert_eq!(c.active_backend(), ("10.0.0.9", 11434));
}

#[test]
fn remote_port_parsing() {
    let mut s = fresh();
    let a = s.update(Message::SetRemotePort("8080".into()));
    assert!(matches!(&a[..], [Action::SaveConfig]));
    assert_eq!(s.config().remote_port, 8080);
    let a = s.update(Message::SetRemotePort("80x".into()));
    assert!(a.is_empty());
    assert_eq!(s.remote_port_text, "80x");
    assert_eq!(s.config().remote_port, 8080);
    s.update(Message::SetRemotePort("+65535".into()));
    assert_eq!(s.config().remote_port, 65535);
    assert!(s.update(Message::SetRemotePort("65536".into())).is_empty());
    assert!(s.update(Message::SetRemotePort("".into())).is_empty());
    assert!(s.update(Message::SetRemotePort("-1".into())).is_empty());
    assert_eq!(s.config().remote_port, 65535);
}

#[test]
fn docs_paths_add_and_remove() {
    let mut s = fresh();
    s.update(Message::NewDocsPathChanged("  /home/me/wiki ".into()));
    s.update(Message::AddDocsPath);
    assert_eq!(s.new_docs_path, "");
    assert_eq!(
        s.config().docs_paths,
        vec!["/usr/share/ncos-assistant/docs".to_string(), "/home/me/wiki".to_string()]
    );
    s.update(Message::NewDocsPathChanged("/home/me/wiki".into()));
    s.update(Message::AddDocsPath);
    assert_eq!(s.config().docs_paths.len(), 2);
    s.update(Message::NewDocsPathChanged("   ".into()));
    assert!(s.update(Message::AddDocsPath).is_empty());
    s.update(Message::RemoveDocsPath(1));
    assert_eq!(s.config().docs_paths, vec!["/usr/share/ncos-assistant/docs".to_string()]);
    let a = s.update(Message::RemoveDocsPath(5));
    assert!(matches!(&a[..], [Action::SaveConfig]));
    assert_eq!(s.config().docs_paths.len(), 1);
}

#[test]
fn config_change_from_outside() {
    let mut s = fresh();
    let mut c = AssistantConfig::default();
    c.remote_port = 1234;
    let a = s.update(Message::ConfigChanged(c));
    assert!(matches!(&a[..], [Action::CheckHealth]));
    assert_eq!(s.remote_port_text, "1234");
    assert_eq!(s.config().remote_port, 1234);
}

#[test]
fn toggles() {
    let mut s = fresh();
    s.update(Message::ToggleSettings);
    assert!(s.show_settings);
    s.update(Message::ToggleSettings);
    assert!(!s.show_settings);
    s.update(Message::HealthChecked(true));
    assert_eq!(s.backend_ok, Some(true));
    let a = s.update(Message::RebuildIndex);
    assert!(matches!(&a[..], [Action::BuildIndex]));
}
