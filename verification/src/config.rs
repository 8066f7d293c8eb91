//! The assistant's settings.

use vstd::prelude::*;
use crate::text::string_views;

verus! {

/// Version of the stored settings layout.
pub const CONFIG_VERSION: u64 = 1;

/// Default port of an Ollama server.
pub const DEFAULT_PORT: u16 = 11434;

/// Default number of document chunks retrieved per question.
pub const DEFAULT_TOP_K: u32 = 4;

/// The assistant's settings.
#[derive(Debug, Clone, PartialEq)]
pub struct AssistantConfig {
    pub use_remote: bool,
    pub local_host: String,
    pub local_port: u16,
    pub remote_host: String,
    pub remote_port: u16,
    pub chat_model: String,
    pub embed_model: String,
    pub docs_paths: Vec<String>,
    pub top_k: u32,
    pub show_sources: bool,
}

/// The mathematical value of an [`AssistantConfig`].
#[verifier::ext_equal]
pub struct ConfigView {
    pub use_remote: bool,
    pub local_host: Seq<char>,
    pub local_port: u16,
    pub remote_host: Seq<char>,
    pub remote_port: u16,
    pub chat_model: Seq<char>,
    pub embed_model: Seq<char>,
    pub docs_paths: Seq<Seq<char>>,
    pub top_k: u32,
    pub show_sources: bool,
}

impl View for AssistantConfig {
    type V = ConfigView;

    open spec fn view(&self) -> ConfigView {
        ConfigView {
            use_remote: self.use_remote,
            local_host: self.local_host@,
            local_port: self.local_port,
            remote_host: self.remote_host@,
            remote_port: self.remote_port,
            chat_model: self.chat_model@,
            embed_model: self.embed_model@,
            docs_paths: string_views(self.docs_paths@),
            top_k: self.top_k,
            show_sources: self.show_sources,
        }
    }
}

/// The settings of a fresh installation.
pub open spec fn default_config() -> ConfigView {
    ConfigView {
        use_remote: false,
        local_host: "localhost"@,
        local_port: DEFAULT_PORT,
        remote_host: Seq::empty(),
        remote_port: DEFAULT_PORT,
        chat_model: "qwen3:4b"@,
        embed_model: "nomic-embed-text"@,
        docs_paths: seq!["/usr/share/ncos-assistant/docs"@],
        top_k: DEFAULT_TOP_K,
        show_sources: true,
    }
}

/// Host and port of whichever backend is active: the remote one when it
/// is switched on and has a host, else the local one.
pub open spec fn active_backend_spec(c: ConfigView) -> (Seq<char>, u16) {
    if c.use_remote && c.remote_host.len() > 0 {
        (c.remote_host, c.remote_port)
    } else {
        (c.local_host, c.local_port)
    }
}

impl Default for AssistantConfig {
    fn default() -> (c: Self)
        ensures
            c@ == default_config(),
    {
        let mut docs_paths: Vec<String> = Vec::new();
        docs_paths.push("/usr/share/ncos-assistant/docs".to_owned());
        let c = AssistantConfig {
            use_remote: false,
            local_host: "localhost".to_owned(),
            local_port: DEFAULT_PORT,
            remote_host: String::new(),
            remote_port: DEFAULT_PORT,
            chat_model: "qwen3:4b".to_owned(),
            embed_model: "nomic-embed-text".to_owned(),
            docs_paths,
            top_k: DEFAULT_TOP_K,
            show_sources: true,
        };
        assert(c@.docs_paths =~= default_config().docs_paths);
        c
    }
}

impl AssistantConfig {
    /// The settings to start with, from what was read from the settings
    /// store: `None` where there is no store, `Ok` for a complete entry,
    /// `Err` carrying the entry repaired with defaults where some fields
    /// could not be read.
    pub fn load(stored: Option<Result<AssistantConfig, AssistantConfig>>) -> (c: Self)
        ensures
            stored matches Some(Ok(entry)) ==> c == entry,
            stored matches Some(Err(entry)) ==> c == entry,
            stored is None ==> c@ == default_config(),
    {
        match stored {
            Some(Ok(entry)) => entry,
            Some(Err(entry)) => entry,
            None => AssistantConfig::default(),
        }
    }

    /// Host/port of whichever backend is active.
    pub fn active_backend(&self) -> (r: (&str, u16))
        ensures
            (r.0@, r.1) == active_backend_spec(self@),
    {
        if self.use_remote && !self.remote_host.as_str().is_empty() {
            (self.remote_host.as_str(), self.remote_port)
        } else {
            (self.local_host.as_str(), self.local_port)
        }
    }
}

} // verus!
