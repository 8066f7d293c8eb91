//! The texts the popup shows: the status line, the index state in the
//! settings, and how answers and their sources are written.

use vstd::prelude::*;
use crate::app::{AssistantState, AssistantView, ChatEntry, IndexStatus, IndexStatusView};
use crate::config::active_backend_spec;
use crate::ollama::{decimal, decimal_exec};
use crate::text::{chars_of, chars_of_all, join, join_exec, push_all, string_of, string_views};

verus! {

/// `"Ollama @ host:port"`, with whether the last probe reached it.
pub open spec fn backend_text(host: Seq<char>, port: u16, ok: Option<bool>) -> Seq<char> {
    "Ollama @ "@ + host + ":"@ + decimal(port as nat) + match ok {
        Some(true) => " · connected"@,
        Some(false) => " · offline"@,
        None => Seq::empty(),
    }
}

/// The index state in the status line.
pub open spec fn index_text(st: IndexStatusView) -> Seq<char> {
    match st {
        IndexStatusView::NotBuilt => "no index"@,
        IndexStatusView::Building { done, total } => if total > 0 {
            "indexing "@ + decimal(done as nat) + "/"@ + decimal(total as nat) + "…"@
        } else {
            "indexing…"@
        },
        IndexStatusView::Ready { chunks } => decimal(chunks as nat) + " doc chunks"@,
        IndexStatusView::Failed(_) => "index failed"@,
    }
}

/// The status line under the popup's title.
pub open spec fn status_line_spec(s: AssistantView) -> Seq<char> {
    let (host, port) = active_backend_spec(s.config);
    backend_text(host, port, s.backend_ok) + " · "@ + index_text(s.index_status)
}

/// The index state in the settings.
pub open spec fn index_label_spec(st: IndexStatusView) -> Seq<char> {
    match st {
        IndexStatusView::Building { done, total } => if total > 0 {
            "Indexing "@ + decimal(done as nat) + "/"@ + decimal(total as nat) + "…"@
        } else {
            "Indexing…"@
        },
        IndexStatusView::Ready { chunks } => "Index ready · "@ + decimal(chunks as nat)
            + " chunks"@,
        IndexStatusView::NotBuilt => "Index not built yet"@,
        IndexStatusView::Failed(err) => "Index failed: "@ + err,
    }
}

fn push_str(out: &mut Vec<char>, s: &str)
    ensures
        final(out)@ == old(out)@ + s@,
{
    push_all(out, &chars_of(s));
}

impl AssistantState {
    /// The status line under the popup's title.
    pub fn status_line(&self) -> (s: String)
        ensures
            s@ == status_line_spec(self@),
    {
        let (host, port) = self.config().active_backend();
        let mut out = chars_of("Ollama @ ");
        push_str(&mut out, host);
        push_str(&mut out, ":");
        push_all(&mut out, &decimal_exec(port as u64));
        match self.backend_ok {
            Some(true) => push_str(&mut out, " · connected"),
            Some(false) => push_str(&mut out, " · offline"),
            None => {},
        }
        push_str(&mut out, " · ");
        match &self.index_status {
            IndexStatus::NotBuilt => push_str(&mut out, "no index"),
            IndexStatus::Building { done, total } => {
                if *total > 0 {
                    push_str(&mut out, "indexing ");
                    push_all(&mut out, &decimal_exec(*done as u64));
                    push_str(&mut out, "/");
                    push_all(&mut out, &decimal_exec(*total as u64));
                    push_str(&mut out, "…");
                } else {
                    push_str(&mut out, "indexing…");
                }
            },
            IndexStatus::Ready { chunks } => {
                push_all(&mut out, &decimal_exec(*chunks as u64));
                push_str(&mut out, " doc chunks");
            },
            IndexStatus::Failed(_) => push_str(&mut out, "index failed"),
        }
        assert(out@ =~= status_line_spec(self@));
        string_of(&out)
    }

    /// The index state in the settings.
    pub fn index_label(&self) -> (s: String)
        ensures
            s@ == index_label_spec(self@.index_status),
    {
        let mut out: Vec<char> = Vec::new();
        match &self.index_status {
            IndexStatus::Building { done, total } => {
                if *total > 0 {
                    push_str(&mut out, "Indexing ");
                    push_all(&mut out, &decimal_exec(*done as u64));
                    push_str(&mut out, "/");
                    push_all(&mut out, &decimal_exec(*total as u64));
                    push_str(&mut out, "…");
                } else {
                    push_str(&mut out, "Indexing…");
                }
            },
            IndexStatus::Ready { chunks } => {
                push_str(&mut out, "Index ready · ");
                push_all(&mut out, &decimal_exec(*chunks as u64));
                push_str(&mut out, " chunks");
            },
            IndexStatus::NotBuilt => push_str(&mut out, "Index not built yet"),
            IndexStatus::Failed(err) => {
                push_str(&mut out, "Index failed: ");
                push_str(&mut out, err.as_str());
            },
        }
        assert(out@ =~= index_label_spec(self@.index_status));
        string_of(&out)
    }
}

/// An answer as shown: `"…"` while it is still empty and streaming.
pub open spec fn answer_text_spec(content: Seq<char>, streaming: bool) -> Seq<char> {
    if content.len() == 0 && streaming {
        "…"@
    } else {
        content
    }
}

/// An answer as shown.
pub fn answer_text(entry: &ChatEntry, streaming: bool) -> (s: String)
    ensures
        s@ == answer_text_spec(entry.content@, streaming),
{
    if entry.content.as_str().is_empty() && streaming {
        "…".to_owned()
    } else {
        entry.content.clone()
    }
}

/// The line under an answer naming its sources; none without sources.
pub open spec fn sources_caption_spec(sources: Seq<Seq<char>>) -> Option<Seq<char>> {
    if sources.len() == 0 {
        None
    } else {
        Some("Sources: "@ + join(sources, " · "@))
    }
}

/// The line under an answer naming its sources.
pub fn sources_caption(sources: &Vec<String>) -> (r: Option<String>)
    ensures
        match r {
            Some(s) => sources_caption_spec(string_views(sources@)) == Some(s@),
            None => sources_caption_spec(string_views(sources@)) is None,
        },
{
    if sources.len() == 0 {
        return None;
    }
    let parts = chars_of_all(sources);
    let mut out = chars_of("Sources: ");
    push_all(&mut out, &join_exec(&parts, &chars_of(" · ")));
    Some(string_of(&out))
}

} // verus!
