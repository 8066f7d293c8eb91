//! The applet's state and how each message changes it. The desktop shell
//! delivers messages and performs the actions that an update asks for
//! (opening the popup, talking to Ollama, building the index, saving the
//! settings); every decision is taken here.

use vstd::prelude::*;
use crate::config::{AssistantConfig, ConfigView};
use crate::ollama::{decimal, decimal_exec, message_views, ChatMessage, ChatMessageView};
use crate::rag::index::{FileTable, IndexSummary, IndexSummaryView};
use crate::rag::{needs_rebuild, needs_rebuild_spec, IndexEvent};
use crate::text::{
    chars_eq, chars_of, parse_u16, parse_u16_spec, push_all, string_of, string_views, trim,
    trim_exec,
};

verus! {

/// The applet's identifier.
pub const APP_ID: &'static str = "io.github.exothermic88.ncos-assistant";

/// How many prior chat entries are replayed to the model each turn.
pub const HISTORY_WINDOW: usize = 12;

/// Who wrote a chat entry.
#[derive(Debug, Clone, Copy, PartialEq, Eq, Structural)]
pub enum Role {
    User,
    Assistant,
}

/// One entry of the conversation shown in the popup.
#[derive(Debug, Clone)]
pub struct ChatEntry {
    pub role: Role,
    pub content: String,
    pub sources: Vec<String>,
}

/// The mathematical value of a [`ChatEntry`].
#[verifier::ext_equal]
pub struct ChatEntryView {
    pub role: Role,
    pub content: Seq<char>,
    pub sources: Seq<Seq<char>>,
}

impl View for ChatEntry {
    type V = ChatEntryView;

    open spec fn view(&self) -> ChatEntryView {
        ChatEntryView {
            role: self.role,
            content: self.content@,
            sources: string_views(self.sources@),
        }
    }
}

/// The views of a sequence of chat entries.
pub open spec fn entry_views(v: Seq<ChatEntry>) -> Seq<ChatEntryView> {
    v.map_values(|e: ChatEntry| e@)
}

/// What a chat request reports while it runs.
#[derive(Debug, Clone)]
pub enum ChatEvent {
    /// The documentation the answer draws on.
    Sources(Vec<String>),
    /// A piece of the answer.
    Token(String),
    /// The answer is complete.
    Done,
    /// The request failed, with the message to show.
    Failed(String),
}

/// Where the document index stands.
#[derive(Debug, Clone, PartialEq)]
pub enum IndexStatus {
    NotBuilt,
    Building { done: usize, total: usize },
    Ready { chunks: usize },
    Failed(String),
}

/// The mathematical value of an [`IndexStatus`].
pub enum IndexStatusView {
    NotBuilt,
    Building { done: usize, total: usize },
    Ready { chunks: usize },
    Failed(Seq<char>),
}

impl View for IndexStatus {
    type V = IndexStatusView;

    open spec fn view(&self) -> IndexStatusView {
        match self {
            IndexStatus::NotBuilt => IndexStatusView::NotBuilt,
            IndexStatus::Building { done, total } => IndexStatusView::Building {
                done: *done,
                total: *total,
            },
            IndexStatus::Ready { chunks } => IndexStatusView::Ready { chunks: *chunks },
            IndexStatus::Failed(e) => IndexStatusView::Failed(e@),
        }
    }
}

impl Default for IndexStatus {
    fn default() -> (s: Self)
        ensures
            s == IndexStatus::NotBuilt,
    {
        IndexStatus::NotBuilt
    }
}

/// What the applet reacts to.
#[derive(Debug, Clone)]
pub enum Message {
    /// The panel icon was pressed; the popup it would open gets this id.
    TogglePopup(u64),
    PopupClosed(u64),
    InputChanged(String),
    Send,
    StopGeneration,
    ClearChat,
    Chat(ChatEvent),
    HealthChecked(bool),
    RebuildIndex,
    Index(IndexEvent),
    /// The documentation files found now, in ascending path order, each
    /// with its modification time: the answer to [`Action::ScanDocs`].
    DocsScanned(FileTable),
    ToggleSettings,
    ConfigChanged(AssistantConfig),
    SetUseRemote(bool),
    SetRemoteHost(String),
    SetRemotePort(String),
    SetChatModel(String),
    SetEmbedModel(String),
    SetShowSources(bool),
    SetTopK(u32),
    NewDocsPathChanged(String),
    AddDocsPath,
    RemoveDocsPath(usize),
}

/// What the shell is asked to do after an update.
#[derive(Debug, Clone)]
pub enum Action {
    OpenPopup(u64),
    ClosePopup(u64),
    FocusInput,
    /// Probe whether the active backend answers.
    CheckHealth,
    /// Find the documentation files and answer with [`Message::DocsScanned`].
    ScanDocs,
    /// Build the index from the documentation folders.
    BuildIndex,
    /// Ask the chat model, with the conversation so far and the new prompt.
    StartChat { history: Vec<ChatMessage>, prompt: String },
    /// Stop the running chat request.
    AbortChat,
    /// Persist the settings.
    SaveConfig,
}

/// The mathematical value of an [`Action`].
pub enum ActionView {
    OpenPopup(u64),
    ClosePopup(u64),
    FocusInput,
    CheckHealth,
    ScanDocs,
    BuildIndex,
    StartChat { history: Seq<ChatMessageView>, prompt: Seq<char> },
    AbortChat,
    SaveConfig,
}

impl View for Action {
    type V = ActionView;

    open spec fn view(&self) -> ActionView {
        match self {
            Action::OpenPopup(id) => ActionView::OpenPopup(*id),
            Action::ClosePopup(id) => ActionView::ClosePopup(*id),
            Action::FocusInput => ActionView::FocusInput,
            Action::CheckHealth => ActionView::CheckHealth,
            Action::ScanDocs => ActionView::ScanDocs,
            Action::BuildIndex => ActionView::BuildIndex,
            Action::StartChat { history, prompt } => ActionView::StartChat {
                history: message_views(history@),
                prompt: prompt@,
            },
            Action::AbortChat => ActionView::AbortChat,
            Action::SaveConfig => ActionView::SaveConfig,
        }
    }
}

/// The views of a sequence of actions.
pub open spec fn action_views(v: Seq<Action>) -> Seq<ActionView> {
    v.map_values(|a: Action| a@)
}

/// The applet's state.
pub struct AssistantState {
    pub popup: Option<u64>,
    pub config: AssistantConfig,
    pub input: String,
    pub history: Vec<ChatEntry>,
    pub streaming: bool,
    pub chat_running: bool,
    pub index: Option<IndexSummary>,
    pub index_status: IndexStatus,
    pub backend_ok: Option<bool>,
    pub show_settings: bool,
    pub last_error: Option<String>,
    pub remote_port_text: String,
    pub new_docs_path: String,
}

/// The mathematical value of an [`AssistantState`].
#[verifier::ext_equal]
pub struct AssistantView {
    /// The open popup.
    pub popup: Option<u64>,
    pub config: ConfigView,
    /// Text in the input field.
    pub input: Seq<char>,
    pub history: Seq<ChatEntryView>,
    /// An answer is being received.
    pub streaming: bool,
    /// A chat request that can be stopped is running.
    pub chat_running: bool,
    /// The index in use.
    pub index: Option<IndexSummaryView>,
    pub index_status: IndexStatusView,
    /// Outcome of the last reachability probe.
    pub backend_ok: Option<bool>,
    pub show_settings: bool,
    pub last_error: Option<Seq<char>>,
    /// Text in the remote port field.
    pub remote_port_text: Seq<char>,
    /// Text in the field for a new docs folder.
    pub new_docs_path: Seq<char>,
}

impl View for AssistantState {
    type V = AssistantView;

    open spec fn view(&self) -> AssistantView {
        AssistantView {
            popup: self.popup,
            config: self.config@,
            input: self.input@,
            history: entry_views(self.history@),
            streaming: self.streaming,
            chat_running: self.chat_running,
            index: match self.index {
                Some(i) => Some(i@),
                None => None,
            },
            index_status: self.index_status@,
            backend_ok: self.backend_ok,
            show_settings: self.show_settings,
            last_error: match self.last_error {
                Some(e) => Some(e@),
                None => None,
            },
            remote_port_text: self.remote_port_text@,
            new_docs_path: self.new_docs_path@,
        }
    }
}

/// The role name the chat API uses.
pub open spec fn role_name(r: Role) -> Seq<char> {
    match r {
        Role::User => "user"@,
        Role::Assistant => "assistant"@,
    }
}

/// The last entries of the conversation, at most [`HISTORY_WINDOW`].
pub open spec fn history_window(h: Seq<ChatEntryView>) -> Seq<ChatEntryView> {
    if h.len() > HISTORY_WINDOW {
        h.subrange(h.len() - HISTORY_WINDOW, h.len() as int)
    } else {
        h
    }
}

/// The entries with content, as chat messages.
pub open spec fn as_messages(h: Seq<ChatEntryView>) -> Seq<ChatMessageView>
    decreases h.len(),
{
    if h.len() == 0 {
        Seq::empty()
    } else if h.last().content.len() > 0 {
        as_messages(h.drop_last()).push(
            ChatMessageView { role: role_name(h.last().role), content: h.last().content },
        )
    } else {
        as_messages(h.drop_last())
    }
}

/// The conversation replayed to the model with a new prompt.
pub open spec fn chat_history(h: Seq<ChatEntryView>) -> Seq<ChatMessageView> {
    as_messages(history_window(h))
}

/// An entry with no content yet.
pub open spec fn fresh_entry(role: Role, content: Seq<char>) -> ChatEntryView {
    ChatEntryView { role: role, content: content, sources: Seq::empty() }
}

/// A rebuild of the index started.
pub open spec fn start_rebuild(s: AssistantView) -> (AssistantView, Seq<ActionView>) {
    (
        AssistantView { index_status: IndexStatusView::Building { done: 0, total: 0 }, ..s },
        seq![ActionView::BuildIndex],
    )
}

/// Unchanged, with nothing to do.
pub open spec fn unchanged(s: AssistantView) -> (AssistantView, Seq<ActionView>) {
    (s, Seq::empty())
}

/// The settings changed to `c` and saved.
pub open spec fn saved(s: AssistantView, c: ConfigView) -> (AssistantView, Seq<ActionView>) {
    (AssistantView { config: c, ..s }, seq![ActionView::SaveConfig])
}

/// The panel icon pressed: an open popup closes; otherwise the popup opens,
/// the backend is probed, the input focused, and the index rebuilt when it
/// is stale (no index, or another embedding model) unless a build runs;
/// with an index of the same model the files are scanned first.
pub open spec fn on_toggle_popup(s: AssistantView, new_popup: u64) -> (AssistantView, Seq<ActionView>) {
    match s.popup {
        Some(id) => (AssistantView { popup: None, ..s }, seq![ActionView::ClosePopup(id)]),
        None => {
            let opened = AssistantView { popup: Some(new_popup), ..s };
            let base = seq![
                ActionView::OpenPopup(new_popup),
                ActionView::CheckHealth,
                ActionView::FocusInput,
            ];
            if s.index_status is Building {
                (opened, base)
            } else {
                match s.index {
                    Some(idx) => if idx.embed_model == s.config.embed_model {
                        (opened, base.push(ActionView::ScanDocs))
                    } else {
                        (start_rebuild(opened).0, base + start_rebuild(opened).1)
                    },
                    None => (start_rebuild(opened).0, base + start_rebuild(opened).1),
                }
            }
        },
    }
}

/// The files found now: the index is rebuilt when it is stale and no build
/// runs.
pub open spec fn on_docs_scanned(s: AssistantView, files: Seq<(Seq<char>, u64)>) -> (AssistantView, Seq<ActionView>) {
    if !(s.index_status is Building) && needs_rebuild_spec(s.index, s.config.embed_model, files) {
        start_rebuild(s)
    } else {
        unchanged(s)
    }
}

/// Send: a blank prompt, or one while an answer is streaming, is ignored.
/// Otherwise the trimmed prompt is sent with the last entries of the
/// conversation, the input is cleared, and the conversation gains the
/// prompt and an empty answer.
pub open spec fn on_send(s: AssistantView) -> (AssistantView, Seq<ActionView>) {
    let prompt = trim(s.input);
    if prompt.len() == 0 || s.streaming {
        unchanged(s)
    } else {
        (
            AssistantView {
                input: Seq::empty(),
                last_error: None,
                history: s.history + seq![
                    fresh_entry(Role::User, prompt),
                    fresh_entry(Role::Assistant, Seq::empty()),
                ],
                streaming: true,
                chat_running: true,
                ..s
            },
            seq![ActionView::StartChat { history: chat_history(s.history), prompt: prompt }],
        )
    }
}

/// Stops the running request, if any.
pub open spec fn stop_actions(s: AssistantView) -> Seq<ActionView> {
    if s.chat_running {
        seq![ActionView::AbortChat]
    } else {
        Seq::empty()
    }
}

/// What a chat event does to the conversation: sources and tokens go to
/// the last entry; the end of the answer stops streaming; a failure stops
/// it, records the message and drops an answer that got no content.
pub open spec fn on_chat(s: AssistantView, ev: ChatEvent) -> (AssistantView, Seq<ActionView>) {
    match ev {
        ChatEvent::Sources(v) => if s.history.len() > 0 {
            unchanged(
                AssistantView {
                    history: s.history.drop_last().push(
                        ChatEntryView { sources: string_views(v@), ..s.history.last() },
                    ),
                    ..s
                },
            )
        } else {
            unchanged(s)
        },
        ChatEvent::Token(t) => if s.history.len() > 0 {
            unchanged(
                AssistantView {
                    history: s.history.drop_last().push(
                        ChatEntryView { content: s.history.last().content + t@, ..s.history.last() },
                    ),
                    ..s
                },
            )
        } else {
            unchanged(s)
        },
        ChatEvent::Done => unchanged(AssistantView { streaming: false, chat_running: false, ..s }),
        ChatEvent::Failed(e) => unchanged(
            AssistantView {
                streaming: false,
                chat_running: false,
                last_error: Some(e@),
                history: if s.history.len() > 0 && s.history.last().role == Role::Assistant
                    && s.history.last().content.len() == 0 {
                    s.history.drop_last()
                } else {
                    s.history
                },
                ..s
            },
        ),
    }
}

/// What an index event does: progress and failure are shown; a finished
/// index is put in use.
pub open spec fn on_index(s: AssistantView, ev: IndexEvent) -> (AssistantView, Seq<ActionView>) {
    match ev {
        IndexEvent::Progress { done, total } => unchanged(
            AssistantView { index_status: IndexStatusView::Building { done, total }, ..s },
        ),
        IndexEvent::Finished(sum) => unchanged(
            AssistantView {
                index_status: IndexStatusView::Ready { chunks: sum.chunks },
                index: Some(sum@),
                ..s
            },
        ),
        IndexEvent::Failed(e) => unchanged(
            AssistantView { index_status: IndexStatusView::Failed(e@), ..s },
        ),
    }
}

/// A new docs folder added from its field: a blank entry is ignored; the
/// trimmed path is added unless listed already, the field cleared and the
/// settings saved.
pub open spec fn on_add_docs_path(s: AssistantView) -> (AssistantView, Seq<ActionView>) {
    let path = trim(s.new_docs_path);
    if path.len() == 0 {
        unchanged(s)
    } else {
        let paths = if s.config.docs_paths.contains(path) {
            s.config.docs_paths
        } else {
            s.config.docs_paths.push(path)
        };
        (
            AssistantView {
                config: ConfigView { docs_paths: paths, ..s.config },
                new_docs_path: Seq::empty(),
                ..s
            },
            seq![ActionView::SaveConfig],
        )
    }
}

/// The state after a message, and the actions it asks for.
pub open spec fn step(s: AssistantView, m: Message) -> (AssistantView, Seq<ActionView>) {
    match m {
        Message::TogglePopup(id) => on_toggle_popup(s, id),
        Message::PopupClosed(id) => if s.popup == Some(id) {
            unchanged(AssistantView { popup: None, ..s })
        } else {
            unchanged(s)
        },
        Message::InputChanged(text) => unchanged(AssistantView { input: text@, ..s }),
        Message::Send => on_send(s),
        Message::StopGeneration => (
            AssistantView { streaming: false, chat_running: false, ..s },
            stop_actions(s),
        ),
        Message::ClearChat => (
            AssistantView {
                streaming: false,
                chat_running: false,
                history: Seq::empty(),
                last_error: None,
                ..s
            },
            stop_actions(s),
        ),
        Message::Chat(ev) => on_chat(s, ev),
        Message::HealthChecked(ok) => unchanged(AssistantView { backend_ok: Some(ok), ..s }),
        Message::RebuildIndex => start_rebuild(s),
        Message::Index(ev) => on_index(s, ev),
        Message::DocsScanned(files) => on_docs_scanned(s, files@),
        Message::ToggleSettings => unchanged(
            AssistantView { show_settings: !s.show_settings, ..s },
        ),
        Message::ConfigChanged(c) => (
            AssistantView { remote_port_text: decimal(c.remote_port as nat), config: c@, ..s },
            seq![ActionView::CheckHealth],
        ),
        Message::SetUseRemote(v) => (
            AssistantView { config: ConfigView { use_remote: v, ..s.config }, ..s },
            seq![ActionView::SaveConfig, ActionView::CheckHealth],
        ),
        Message::SetRemoteHost(v) => saved(s, ConfigView { remote_host: v@, ..s.config }),
        Message::SetRemotePort(text) => match parse_u16_spec(text@) {
            Some(port) => saved(
                AssistantView { remote_port_text: text@, ..s },
                ConfigView { remote_port: port, ..s.config },
            ),
            None => unchanged(AssistantView { remote_port_text: text@, ..s }),
        },
        Message::SetChatModel(v) => saved(s, ConfigView { chat_model: v@, ..s.config }),
        Message::SetEmbedModel(v) => saved(s, ConfigView { embed_model: v@, ..s.config }),
        Message::SetShowSources(v) => saved(s, ConfigView { show_sources: v, ..s.config }),
        Message::SetTopK(v) => saved(s, ConfigView { top_k: v, ..s.config }),
        Message::NewDocsPathChanged(v) => unchanged(AssistantView { new_docs_path: v@, ..s }),
        Message::AddDocsPath => on_add_docs_path(s),
        Message::RemoveDocsPath(i) => saved(
            s,
            ConfigView {
                docs_paths: if i < s.config.docs_paths.len() {
                    s.config.docs_paths.remove(i as int)
                } else {
                    s.config.docs_paths
                },
                ..s.config
            },
        ),
    }
}


/// The state of a freshly started applet.
pub open spec fn initial_state(config: ConfigView, index: Option<IndexSummaryView>) -> AssistantView {
    AssistantView {
        popup: None,
        config: config,
        input: Seq::empty(),
        history: Seq::empty(),
        streaming: false,
        chat_running: false,
        index: index,
        index_status: match index {
            Some(i) => IndexStatusView::Ready { chunks: i.chunks },
            None => IndexStatusView::NotBuilt,
        },
        backend_ok: None,
        show_settings: false,
        last_error: None,
        remote_port_text: decimal(config.remote_port as nat),
        new_docs_path: Seq::empty(),
    }
}

/// The role name the chat API uses.
fn role_str(r: Role) -> (s: &'static str)
    ensures
        s@ == role_name(r),
{
    match r {
        Role::User => "user",
        Role::Assistant => "assistant",
    }
}

/// Whether `p` is one of `paths`.
fn contains_path(paths: &Vec<String>, p: &Vec<char>) -> (b: bool)
    ensures
        b == string_views(paths@).contains(p@),
{
    let mut i: usize = 0;
    while i < paths.len()
        invariant
            i <= paths@.len(),
            forall|k: int| 0 <= k < i ==> string_views(paths@)[k] != p@,
        decreases paths@.len() - i,
    {
        if chars_eq(&chars_of(paths[i].as_str()), p) {
            assert(string_views(paths@)[i as int] == p@);
            return true;
        }
        i = i + 1;
    }
    false
}

impl AssistantState {
    /// The applet as it starts, with the settings and the stored index
    /// (if one could be loaded).
    pub fn init(config: AssistantConfig, index: Option<IndexSummary>) -> (s: Self)
        ensures
            s@ == initial_state(
                config@,
                match index {
                    Some(i) => Some(i@),
                    None => None,
                },
            ),
    {
        let remote_port_text = string_of(&decimal_exec(config.remote_port as u64));
        let index_status = match &index {
            Some(i) => IndexStatus::Ready { chunks: i.chunks },
            None => IndexStatus::NotBuilt,
        };
        let s = AssistantState {
            popup: None,
            config,
            input: String::new(),
            history: Vec::new(),
            streaming: false,
            chat_running: false,
            index,
            index_status,
            backend_ok: None,
            show_settings: false,
            last_error: None,
            remote_port_text,
            new_docs_path: String::new(),
        };
        assert(s@ =~= initial_state(
            s.config@,
            match s.index {
                Some(i) => Some(i@),
                None => None,
            },
        ));
        s
    }

    /// The settings in use.
    pub fn config(&self) -> (c: &AssistantConfig)
        ensures
            c@ == self@.config,
    {
        &self.config
    }

    /// The conversation replayed to the model with a new prompt.
    fn chat_history_messages(&self) -> (r: Vec<ChatMessage>)
        ensures
            message_views(r@) == chat_history(self@.history),
    {
        let ghost h = self@.history;
        let n = self.history.len();
        let start: usize = if n > HISTORY_WINDOW {
            n - HISTORY_WINDOW
        } else {
            0
        };
        let ghost w = history_window(h);
        assert(w =~= h.subrange(start as int, n as int));
        let mut r: Vec<ChatMessage> = Vec::new();
        let mut i: usize = start;
        while i < n
            invariant
                start <= i <= n,
                n == self.history@.len(),
                h == entry_views(self.history@),
                w == h.subrange(start as int, n as int),
                message_views(r@) == as_messages(w.take(i - start)),
            decreases n - i,
        {
            let e = &self.history[i];
            assert(w[i - start] == e@);
            assert(w.take(i + 1 - start).drop_last() =~= w.take(i - start));
            if !e.content.as_str().is_empty() {
                let m = ChatMessage::new(role_str(e.role), e.content.as_str());
                let ghost old_r = r@;
                r.push(m);
                assert(message_views(r@) =~= message_views(old_r).push(m@));
            }
            i = i + 1;
        }
        assert(w.take(i - start) =~= w);
        r
    }

    fn start_rebuild(&mut self) -> (actions: Vec<Action>)
        ensures
            final(self)@ == start_rebuild(old(self)@).0,
            action_views(actions@) == start_rebuild(old(self)@).1,
    {
        self.index_status = IndexStatus::Building { done: 0, total: 0 };
        let actions = vec![Action::BuildIndex];
        assert(self@ =~= start_rebuild(old(self)@).0);
        assert(action_views(actions@) =~= start_rebuild(old(self)@).1);
        actions
    }

    fn toggle_popup(&mut self, new_popup: u64) -> (actions: Vec<Action>)
        ensures
            final(self)@ == on_toggle_popup(old(self)@, new_popup).0,
            action_views(actions@) == on_toggle_popup(old(self)@, new_popup).1,
    {
        match self.popup {
            Some(id) => {
                self.popup = None;
                let actions = vec![Action::ClosePopup(id)];
                assert(self@ =~= on_toggle_popup(old(self)@, new_popup).0);
                assert(action_views(actions@) =~= on_toggle_popup(old(self)@, new_popup).1);
                actions
            },
            None => {
                self.popup = Some(new_popup);
                let ghost opened = self@;
                assert(opened =~= AssistantView { popup: Some(new_popup), ..old(self)@ });
                let mut actions = vec![
                    Action::OpenPopup(new_popup),
                    Action::CheckHealth,
                    Action::FocusInput,
                ];
                let ghost base = action_views(actions@);
                assert(base =~= seq![
                    ActionView::OpenPopup(new_popup),
                    ActionView::CheckHealth,
                    ActionView::FocusInput,
                ]);
                let building = match self.index_status {
                    IndexStatus::Building { .. } => true,
                    _ => false,
                };
                if !building {
                    let same_model = match &self.index {
                        Some(idx) => chars_eq(
                            &chars_of(idx.embed_model.as_str()),
                            &chars_of(self.config.embed_model.as_str()),
                        ),
                        None => false,
                    };
                    if same_model {
                        actions.push(Action::ScanDocs);
                        assert(action_views(actions@) =~= base.push(ActionView::ScanDocs));
                    } else {
                        let mut more = self.start_rebuild();
                        let ghost added = action_views(more@);
                        actions.append(&mut more);
                        assert(action_views(actions@) =~= base + added);
                    }
                }
                actions
            },
        }
    }

    fn send(&mut self) -> (actions: Vec<Action>)
        ensures
            final(self)@ == on_send(old(self)@).0,
            action_views(actions@) == on_send(old(self)@).1,
    {
        let prompt_chars = trim_exec(&chars_of(self.input.as_str()));
        if prompt_chars.len() == 0 || self.streaming {
            let actions: Vec<Action> = Vec::new();
            assert(action_views(actions@) =~= Seq::empty());
            return actions;
        }
        let history = self.chat_history_messages();
        let prompt = string_of(&prompt_chars);
        self.input = String::new();
        self.last_error = None;
        let ghost old_h = self.history@;
        let user = ChatEntry { role: Role::User, content: prompt.clone(), sources: Vec::new() };
        let answer = ChatEntry { role: Role::Assistant, content: String::new(), sources: Vec::new() };
        assert(user@ =~= fresh_entry(Role::User, prompt@));
        assert(answer@ =~= fresh_entry(Role::Assistant, Seq::empty()));
        self.history.push(user);
        self.history.push(answer);
        assert(entry_views(self.history@) =~= entry_views(old_h) + seq![
            fresh_entry(Role::User, prompt@),
            fresh_entry(Role::Assistant, Seq::empty()),
        ]);
        self.streaming = true;
        self.chat_running = true;
        let actions = vec![Action::StartChat { history, prompt }];
        assert(self@ =~= on_send(old(self)@).0);
        assert(action_views(actions@) =~= on_send(old(self)@).1);
        actions
    }

    fn stop_running(&mut self) -> (actions: Vec<Action>)
        ensures
            final(self)@ == (AssistantView { streaming: false, chat_running: false, ..old(self)@ }),
            action_views(actions@) == stop_actions(old(self)@),
    {
        let mut actions: Vec<Action> = Vec::new();
        if self.chat_running {
            actions.push(Action::AbortChat);
        }
        self.chat_running = false;
        self.streaming = false;
        assert(action_views(actions@) =~= stop_actions(old(self)@));
        assert(self@ =~= AssistantView { streaming: false, chat_running: false, ..old(self)@ });
        actions
    }

    fn chat_event(&mut self, ev: ChatEvent)
        ensures
            final(self)@ == on_chat(old(self)@, ev).0,
    {
        let ghost old_h = entry_views(self.history@);
        match ev {
            ChatEvent::Sources(v) => {
                if let Some(mut last) = self.history.pop() {
                    last.sources = v;
                    self.history.push(last);
                    assert(entry_views(self.history@) =~= old_h.drop_last().push(
                        ChatEntryView { sources: string_views(v@), ..old_h.last() },
                    ));
                }
            },
            ChatEvent::Token(t) => {
                if let Some(mut last) = self.history.pop() {
                    let mut text = chars_of(last.content.as_str());
                    push_all(&mut text, &chars_of(t.as_str()));
                    last.content = string_of(&text);
                    self.history.push(last);
                    assert(entry_views(self.history@) =~= old_h.drop_last().push(
                        ChatEntryView { content: old_h.last().content + t@, ..old_h.last() },
                    ));
                }
            },
            ChatEvent::Done => {
                self.streaming = false;
                self.chat_running = false;
            },
            ChatEvent::Failed(e) => {
                self.streaming = false;
                self.chat_running = false;
                self.last_error = Some(e);
                let n = self.history.len();
                if n > 0 && self.history[n - 1].role == Role::Assistant
                    && self.history[n - 1].content.as_str().is_empty() {
                    self.history.pop();
                    assert(entry_views(self.history@) =~= old_h.drop_last());
                }
            },
        }
        assert(self@ =~= on_chat(old(self)@, ev).0);
    }

    fn index_event(&mut self, ev: IndexEvent)
        ensures
            final(self)@ == on_index(old(self)@, ev).0,
    {
        let ghost g = ev;
        match ev {
            IndexEvent::Progress { done, total } => {
                self.index_status = IndexStatus::Building { done, total };
            },
            IndexEvent::Finished(sum) => {
                self.index_status = IndexStatus::Ready { chunks: sum.chunks };
                self.index = Some(sum);
            },
            IndexEvent::Failed(e) => {
                self.index_status = IndexStatus::Failed(e);
            },
        }
        assert(self@ =~= on_index(old(self)@, g).0);
    }

    fn docs_scanned(&mut self, files: FileTable) -> (actions: Vec<Action>)
        ensures
            final(self)@ == on_docs_scanned(old(self)@, files@).0,
            action_views(actions@) == on_docs_scanned(old(self)@, files@).1,
    {
        let building = match self.index_status {
            IndexStatus::Building { .. } => true,
            _ => false,
        };
        let stale = match &self.index {
            Some(idx) => needs_rebuild(Some(idx), &self.config, &files),
            None => needs_rebuild(None, &self.config, &files),
        };
        if !building && stale {
            self.start_rebuild()
        } else {
            let actions: Vec<Action> = Vec::new();
            assert(action_views(actions@) =~= Seq::empty());
            actions
        }
    }

    fn add_docs_path(&mut self) -> (actions: Vec<Action>)
        ensures
            final(self)@ == on_add_docs_path(old(self)@).0,
            action_views(actions@) == on_add_docs_path(old(self)@).1,
    {
        let path = trim_exec(&chars_of(self.new_docs_path.as_str()));
        if path.len() == 0 {
            let actions: Vec<Action> = Vec::new();
            assert(action_views(actions@) =~= Seq::empty());
            return actions;
        }
        if !contains_path(&self.config.docs_paths, &path) {
            let ghost old_p = self.config.docs_paths@;
            self.config.docs_paths.push(string_of(&path));
            assert(string_views(self.config.docs_paths@) =~= string_views(old_p).push(path@));
        }
        self.new_docs_path = String::new();
        let actions = vec![Action::SaveConfig];
        assert(self@ =~= on_add_docs_path(old(self)@).0);
        assert(action_views(actions@) =~= on_add_docs_path(old(self)@).1);
        actions
    }

    fn save(&self) -> (actions: Vec<Action>)
        ensures
            action_views(actions@) == seq![ActionView::SaveConfig],
    {
        let actions = vec![Action::SaveConfig];
        assert(action_views(actions@) =~= seq![ActionView::SaveConfig]);
        actions
    }

    /// Applies a message and returns what the shell must do.
    #[verifier::rlimit(60)]
    pub fn update(&mut self, msg: Message) -> (actions: Vec<Action>)
        ensures
            final(self)@ == step(old(self)@, msg).0,
            action_views(actions@) == step(old(self)@, msg).1,
    {
        let ghost m = msg;
        let ghost before = self@;
        let none: Vec<Action> = Vec::new();
        assert(action_views(none@) =~= Seq::empty());
        match msg {
            Message::TogglePopup(id) => self.toggle_popup(id),
            Message::PopupClosed(id) => {
                if self.popup == Some(id) {
                    self.popup = None;
                }
                assert(self@ =~= step(before, m).0);
                none
            },
            Message::InputChanged(text) => {
                self.input = text;
                assert(self@ =~= step(before, m).0);
                none
            },
            Message::Send => self.send(),
            Message::StopGeneration => self.stop_running(),
            Message::ClearChat => {
                let actions = self.stop_running();
                self.history = Vec::new();
                self.last_error = None;
                assert(self@ =~= step(before, m).0);
                actions
            },
            Message::Chat(ev) => {
                self.chat_event(ev);
                none
            },
            Message::HealthChecked(ok) => {
                self.backend_ok = Some(ok);
                assert(self@ =~= step(before, m).0);
                none
            },
            Message::RebuildIndex => self.start_rebuild(),
            Message::Index(ev) => {
                self.index_event(ev);
                none
            },
            Message::DocsScanned(files) => self.docs_scanned(files),
            Message::ToggleSettings => {
                self.show_settings = !self.show_settings;
                assert(self@ =~= step(before, m).0);
                none
            },
            Message::ConfigChanged(c) => {
                self.remote_port_text = string_of(&decimal_exec(c.remote_port as u64));
                self.config = c;
                let actions = vec![Action::CheckHealth];
                assert(self@ =~= step(before, m).0);
                assert(action_views(actions@) =~= step(before, m).1);
                actions
            },
            Message::SetUseRemote(v) => {
                self.config.use_remote = v;
                let actions = vec![Action::SaveConfig, Action::CheckHealth];
                assert(self@ =~= step(before, m).0);
                assert(action_views(actions@) =~= step(before, m).1);
                actions
            },
            Message::SetRemoteHost(v) => {
                self.config.remote_host = v;
                assert(self@ =~= step(before, m).0);
                self.save()
            },
            Message::SetRemotePort(text) => {
                let parsed = parse_u16(text.as_str());
                self.remote_port_text = text;
                match parsed {
                    Some(port) => {
                        self.config.remote_port = port;
                        assert(self@ =~= step(before, m).0);
                        self.save()
                    },
                    None => {
                        assert(self@ =~= step(before, m).0);
                        none
                    },
                }
            },
            Message::SetChatModel(v) => {
                self.config.chat_model = v;
                assert(self@ =~= step(before, m).0);
                self.save()
            },
            Message::SetEmbedModel(v) => {
                self.config.embed_model = v;
                assert(self@ =~= step(before, m).0);
                self.save()
            },
            Message::SetShowSources(v) => {
                self.config.show_sources = v;
                assert(self@ =~= step(before, m).0);
                self.save()
            },
            Message::SetTopK(v) => {
                self.config.top_k = v;
                assert(self@ =~= step(before, m).0);
                self.save()
            },
            Message::NewDocsPathChanged(v) => {
                self.new_docs_path = v;
                assert(self@ =~= step(before, m).0);
                none
            },
            Message::AddDocsPath => self.add_docs_path(),
            Message::RemoveDocsPath(i) => {
                if i < self.config.docs_paths.len() {
                    let ghost old_p = self.config.docs_paths@;
                    self.config.docs_paths.remove(i);
                    assert(string_views(self.config.docs_paths@) =~= string_views(old_p).remove(
                        i as int,
                    ));
                }
                assert(self@ =~= step(before, m).0);
                self.save()
            },
        }
    }
}

proof fn lemma_as_messages(h: Seq<ChatEntryView>)
    ensures
        as_messages(h).len() <= h.len(),
        forall|i: int| 0 <= i < as_messages(h).len() ==> (#[trigger] as_messages(h)[i]).content.len() > 0,
    decreases h.len(),
{
    if h.len() > 0 {
        lemma_as_messages(h.drop_last());
        let r = as_messages(h.drop_last());
        assert forall|i: int| 0 <= i < as_messages(h).len() implies (
        #[trigger] as_messages(h)[i]).content.len() > 0 by {
            if i < r.len() {
                assert(as_messages(h)[i] == r[i]);
            }
        }
    }
}

/// The chat API names the two authors differently: the user's words are
/// sent as `user`, the model's own answers as `assistant`.
pub proof fn law_role_names()
    ensures
        role_name(Role::User) == "user"@,
        role_name(Role::Assistant) == "assistant"@,
        role_name(Role::User) != role_name(Role::Assistant),
{
    reveal_strlit("user");
    reveal_strlit("assistant");
}

proof fn lemma_messages_keep_entries(h: Seq<ChatEntryView>)
    requires
        forall|i: int| 0 <= i < h.len() ==> (#[trigger] h[i]).content.len() > 0,
    ensures
        as_messages(h).len() == h.len(),
        forall|i: int|
            0 <= i < h.len() ==> (#[trigger] as_messages(h)[i]).content == h[i].content
                && as_messages(h)[i].role == role_name(h[i].role),
    decreases h.len(),
{
    if h.len() > 0 {
        let p = h.drop_last();
        assert forall|i: int| 0 <= i < p.len() implies (#[trigger] p[i]).content.len() > 0 by {
            assert(p[i] == h[i]);
        }
        lemma_messages_keep_entries(p);
        assert(h.last() == h[h.len() - 1]);
        assert forall|i: int| 0 <= i < h.len() implies (#[trigger] as_messages(h)[i]).content
            == h[i].content && as_messages(h)[i].role == role_name(h[i].role) by {
            if i < p.len() {
                assert(as_messages(h)[i] == as_messages(p)[i]);
                assert(p[i] == h[i]);
            }
        }
    }
}

/// Sending replays the earlier conversation as it was written: with at
/// most [`HISTORY_WINDOW`] entries, none of them empty, the request holds
/// one message per entry, in order, with its content, sent as `assistant`
/// exactly where the model wrote the entry and as `user` otherwise.
pub proof fn law_send_replays_roles(s: AssistantView)
    requires
        trim(s.input).len() > 0,
        !s.streaming,
        s.history.len() <= HISTORY_WINDOW,
        forall|i: int| 0 <= i < s.history.len() ==> (#[trigger] s.history[i]).content.len() > 0,
    ensures
        step(s, Message::Send).1[0] is StartChat,
        ({
            let sent = step(s, Message::Send).1[0]->history;
            &&& sent.len() == s.history.len()
            &&& forall|i: int|
                0 <= i < sent.len() ==> (#[trigger] sent[i]).content == s.history[i].content
                    && sent[i].role == if s.history[i].role == Role::Assistant {
                    "assistant"@
                } else {
                    "user"@
                }
        }),
{
    law_role_names();
    lemma_messages_keep_entries(s.history);
    assert(history_window(s.history) == s.history);
    let sent = step(s, Message::Send).1[0]->history;
    assert(sent == chat_history(s.history));
    assert forall|i: int| 0 <= i < sent.len() implies (#[trigger] sent[i]).content == s.history[i].content
        && sent[i].role == if s.history[i].role == Role::Assistant {
        "assistant"@
    } else {
        "user"@
    } by {
        assert(sent[i] == as_messages(s.history)[i]);
    }
}

/// A blank prompt, or any prompt while an answer is streaming, changes
/// nothing and asks for nothing.
pub proof fn law_send_ignores_blank_or_busy(s: AssistantView)
    requires
        trim(s.input).len() == 0 || s.streaming,
    ensures
        step(s, Message::Send).0 == s,
        step(s, Message::Send).1 == Seq::<ActionView>::empty(),
{
}

/// Sending a prompt adds it and an empty answer to the conversation,
/// clears the input and asks the model once, with the trimmed prompt and
/// at most [`HISTORY_WINDOW`] earlier messages, none of them empty.
pub proof fn law_send_starts_chat(s: AssistantView)
    requires
        trim(s.input).len() > 0,
        !s.streaming,
    ensures
        step(s, Message::Send).0.history == s.history + seq![
            fresh_entry(Role::User, trim(s.input)),
            fresh_entry(Role::Assistant, Seq::empty()),
        ],
        step(s, Message::Send).0.input == Seq::<char>::empty(),
        step(s, Message::Send).0.streaming,
        step(s, Message::Send).1.len() == 1,
        step(s, Message::Send).1[0] matches ActionView::StartChat { history, prompt } && prompt
            == trim(s.input) && history.len() <= HISTORY_WINDOW && forall|i: int|
            0 <= i < history.len() ==> (#[trigger] history[i]).content.len() > 0,
{
    let w = history_window(s.history);
    lemma_as_messages(w);
}

/// A request that fails before any text arrives takes back the empty
/// answer: the conversation keeps the prompt, and the error is shown.
pub proof fn law_failure_drops_empty_answer(s: AssistantView, e: String)
    requires
        trim(s.input).len() > 0,
        !s.streaming,
    ensures
        ({
            let after = step(step(s, Message::Send).0, Message::Chat(ChatEvent::Failed(e))).0;
            &&& after.history == s.history.push(fresh_entry(Role::User, trim(s.input)))
            &&& !after.streaming
            &&& after.last_error == Some(e@)
        }),
{
    let sent = step(s, Message::Send).0;
    assert(sent.history.drop_last() =~= s.history.push(fresh_entry(Role::User, trim(s.input))));
}

/// The pieces of an answer accumulate in order in the last entry.
pub proof fn law_tokens_accumulate(s: AssistantView, a: String, b: String)
    requires
        s.history.len() > 0,
    ensures
        ({
            let after = step(
                step(s, Message::Chat(ChatEvent::Token(a))).0,
                Message::Chat(ChatEvent::Token(b)),
            ).0;
            &&& after.history.len() == s.history.len()
            &&& after.history.drop_last() == s.history.drop_last()
            &&& after.history.last().content == s.history.last().content + a@ + b@
            &&& after.history.last().role == s.history.last().role
        }),
{
    let mid = step(s, Message::Chat(ChatEvent::Token(a))).0;
    assert(mid.history.drop_last() =~= s.history.drop_last());
    let after = step(mid, Message::Chat(ChatEvent::Token(b))).0;
    assert(after.history.drop_last() =~= mid.history.drop_last());
}

/// Adding a docs folder never lists a folder twice, and a non-blank entry
/// is listed afterwards.
pub proof fn law_add_docs_path_no_duplicates(s: AssistantView)
    requires
        s.config.docs_paths.no_duplicates(),
    ensures
        step(s, Message::AddDocsPath).0.config.docs_paths.no_duplicates(),
        trim(s.new_docs_path).len() > 0 ==> step(
            s,
            Message::AddDocsPath,
        ).0.config.docs_paths.contains(trim(s.new_docs_path)),
{
    let path = trim(s.new_docs_path);
    let ps = s.config.docs_paths;
    if path.len() > 0 && !ps.contains(path) {
        let qs = ps.push(path);
        assert(qs[ps.len() as int] == path);
        assert forall|i: int, j: int| 0 <= i < qs.len() && 0 <= j < qs.len() && i != j implies qs[i]
            != qs[j] by {
            if i < ps.len() && j < ps.len() {
            } else if i < ps.len() {
                assert(qs[i] == ps[i]);
            } else if j < ps.len() {
                assert(qs[j] == ps[j]);
            }
        }
    }
}

/// Removing the folder that was just added undoes the addition.
pub proof fn law_remove_undoes_add(s: AssistantView)
    requires
        trim(s.new_docs_path).len() > 0,
        !s.config.docs_paths.contains(trim(s.new_docs_path)),
        s.config.docs_paths.len() < usize::MAX,
    ensures
        ({
            let added = step(s, Message::AddDocsPath).0;
            step(
                added,
                Message::RemoveDocsPath(s.config.docs_paths.len() as usize),
            ).0.config.docs_paths == s.config.docs_paths
        }),
{
    let ps = s.config.docs_paths;
    assert(ps.push(trim(s.new_docs_path)).remove(ps.len() as int) =~= ps);
}

/// Opening the popup and pressing the icon again closes it.
pub proof fn law_toggle_popup_twice(s: AssistantView, a: u64, b: u64)
    requires
        s.popup is None,
    ensures
        step(step(s, Message::TogglePopup(a)).0, Message::TogglePopup(b)).0.popup is None,
        step(step(s, Message::TogglePopup(a)).0, Message::TogglePopup(b)).1 == seq![
            ActionView::ClosePopup(a),
        ],
{
}

/// Showing the settings twice returns to the same state.
pub proof fn law_toggle_settings_twice(s: AssistantView)
    ensures
        step(step(s, Message::ToggleSettings).0, Message::ToggleSettings).0 == s,
{
    assert(step(step(s, Message::ToggleSettings).0, Message::ToggleSettings).0 =~= s);
}

/// No build starts by itself while one runs: neither opening the popup nor
/// a scan of the files asks for one.
pub proof fn law_no_rebuild_during_build(s: AssistantView, id: u64, files: FileTable)
    requires
        s.index_status is Building,
    ensures
        !step(s, Message::TogglePopup(id)).1.contains(ActionView::BuildIndex),
        !step(s, Message::DocsScanned(files)).1.contains(ActionView::BuildIndex),
{
    let acts = step(s, Message::TogglePopup(id)).1;
    assert forall|i: int| 0 <= i < acts.len() implies acts[i] != ActionView::BuildIndex by {}
}

/// Opening the popup without an index starts building one, unless a build
/// runs.
pub proof fn law_open_without_index_builds(s: AssistantView, id: u64)
    requires
        s.popup is None,
        s.index is None,
        !(s.index_status is Building),
    ensures
        step(s, Message::TogglePopup(id)).1.contains(ActionView::BuildIndex),
        step(s, Message::TogglePopup(id)).0.index_status == (IndexStatusView::Building {
            done: 0,
            total: 0,
        }),
        step(s, Message::TogglePopup(id)).0.popup == Some(id),
{
    assert(step(s, Message::TogglePopup(id)).1[3] == ActionView::BuildIndex);
}

/// A finished index is put in use and shown as ready with its chunks.
pub proof fn law_finished_index_in_use(s: AssistantView, sum: IndexSummary)
    ensures
        step(s, Message::Index(IndexEvent::Finished(sum))).0.index == Some(sum@),
        step(s, Message::Index(IndexEvent::Finished(sum))).0.index_status == (
        IndexStatusView::Ready { chunks: sum.chunks }),
{
}

/// Stopping ends streaming, and asks to abort exactly when a request runs.
pub proof fn law_stop_generation(s: AssistantView)
    ensures
        !step(s, Message::StopGeneration).0.streaming,
        !step(s, Message::StopGeneration).0.chat_running,
        step(s, Message::StopGeneration).1.contains(ActionView::AbortChat) <==> s.chat_running,
        step(s, Message::StopGeneration).0.history == s.history,
{
    if s.chat_running {
        assert(step(s, Message::StopGeneration).1[0] == ActionView::AbortChat);
    }
}

/// Clearing the chat empties the conversation, ends streaming and clears
/// the error.
pub proof fn law_clear_chat(s: AssistantView)
    ensures
        step(s, Message::ClearChat).0.history == Seq::<ChatEntryView>::empty(),
        !step(s, Message::ClearChat).0.streaming,
        step(s, Message::ClearChat).0.last_error is None,
{
}

/// The port field always shows what was typed; the port changes, and is
/// saved, exactly when the text is a valid port number.
pub proof fn law_remote_port(s: AssistantView, text: String)
    ensures
        step(s, Message::SetRemotePort(text)).0.remote_port_text == text@,
        parse_u16_spec(text@) matches Some(p) ==> step(
            s,
            Message::SetRemotePort(text),
        ).0.config.remote_port == p && step(s, Message::SetRemotePort(text)).1 == seq![
            ActionView::SaveConfig,
        ],
        parse_u16_spec(text@) is None ==> step(s, Message::SetRemotePort(text)).0.config == s.config
            && step(s, Message::SetRemotePort(text)).1.len() == 0,
{
}
} // verus!
