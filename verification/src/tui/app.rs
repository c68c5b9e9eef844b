//! Read-only panes: header, sidebar, conversation and status bar, as the
//! text lines the renderer draws. All strings are display-ready.
use vstd::prelude::*;
use crate::text::{concat, owned};

verus! {

/// One sidebar row: `(chat_id, title, unread)`.
pub type ChatRow = (String, String, bool);

/// One conversation row, already sanitized for display.
#[derive(Debug, Clone, PartialEq, Eq)]
pub struct MessageRow {
    pub sender: String,
    pub time: String,
    pub body: String,
}

/// Everything the read panes need.
#[derive(Debug, Clone, PartialEq, Eq)]
pub struct ReadView {
    pub title: String,
    pub connection: String,
    pub chats: Vec<ChatRow>,
    pub selected_chat: Option<String>,
    pub messages: Vec<MessageRow>,
    pub status: String,
}

/// The header line: title, then the connection state after a dot.
pub fn header_line(view: &ReadView) -> (r: String)
    ensures
        r@ == view.title@ + "  ● "@ + view.connection@,
{
    let head = concat(view.title.as_str(), "  ● ");
    concat(head.as_str(), view.connection.as_str())
}

/// A sidebar line: a dot marks the selected chat, a star an unread one.
pub open spec fn chat_line_text(row_id: Seq<char>, title: Seq<char>, unread: bool, selected: Option<Seq<char>>) -> Seq<char> {
    (if selected == Some(row_id) { "● "@ } else { "  "@ }) + title + (if unread { " *"@ } else { ""@ })
}

/// The selected chat's id.
pub open spec fn selected_id(view: ReadView) -> Option<Seq<char>> {
    match view.selected_chat {
        Some(s) => Some(s@),
        None => None,
    }
}

/// The sidebar lines; with no chats, a hint.
pub open spec fn sidebar_text(view: ReadView) -> Seq<Seq<char>> {
    if view.chats@.len() == 0 {
        seq!["(no chats)"@]
    } else {
        view.chats@.map_values(|r: ChatRow| chat_line_text(r.0@, r.1@, r.2, selected_id(view)))
    }
}

/// The sidebar lines of a view.
pub fn sidebar_lines(view: &ReadView) -> (r: Vec<String>)
    ensures
        r@.map_values(|s: String| s@) == sidebar_text(*view),
{
    let mut out: Vec<String> = Vec::new();
    if view.chats.len() == 0 {
        out.push(owned("(no chats)"));
        proof {
            assert(out@.map_values(|s: String| s@) =~= sidebar_text(*view));
        }
        return out;
    }
    let ghost sel = selected_id(*view);
    let mut i: usize = 0;
    while i < view.chats.len()
        invariant
            i <= view.chats@.len(),
            view.chats@.len() > 0,
            sel == selected_id(*view),
            out@.map_values(|s: String| s@) == view.chats@.take(i as int).map_values(
                |r: ChatRow| chat_line_text(r.0@, r.1@, r.2, sel),
            ),
        decreases view.chats.len() - i,
    {
        let row = &view.chats[i];
        let selected = match &view.selected_chat {
            Some(s) => crate::text::same_text(s.as_str(), row.0.as_str()),
            None => false,
        };
        let marker = if selected { "● " } else { "  " };
        let flag = if row.2 { " *" } else { "" };
        let with_title = concat(marker, row.1.as_str());
        let line = concat(with_title.as_str(), flag);
        let ghost before = out@;
        out.push(line);
        proof {
            assert(view.chats@.take(i + 1) =~= view.chats@.take(i as int).push(view.chats@[i as int]));
            assert(out@.map_values(|s: String| s@) =~= before.map_values(|s: String| s@).push(line@));
        }
        i = i + 1;
    }
    proof {
        assert(view.chats@.take(i as int) =~= view.chats@);
    }
    out
}

/// One conversation entry: `sender [time]`, a newline, then the body.
pub open spec fn message_text(m: MessageRow) -> Seq<char> {
    m.sender@ + " ["@ + m.time@ + "]\n"@ + m.body@
}

/// The conversation pane's text: entries separated by a blank line; with no
/// messages, a hint.
pub open spec fn conversation(msgs: Seq<MessageRow>) -> Seq<char>
    decreases msgs.len(),
{
    if msgs.len() == 0 {
        Seq::empty()
    } else if msgs.len() == 1 {
        message_text(msgs[0])
    } else {
        conversation(msgs.drop_last()) + "\n\n"@ + message_text(msgs.last())
    }
}

/// The conversation pane's text of a view.
pub fn conversation_text(view: &ReadView) -> (r: String)
    ensures
        view.messages@.len() == 0 ==> r@ == "(no messages)"@,
        view.messages@.len() > 0 ==> r@ == conversation(view.messages@),
{
    if view.messages.len() == 0 {
        return owned("(no messages)");
    }
    let mut out = String::new();
    let mut i: usize = 0;
    while i < view.messages.len()
        invariant
            i <= view.messages@.len(),
            out@ == conversation(view.messages@.take(i as int)),
        decreases view.messages.len() - i,
    {
        let m = &view.messages[i];
        let a = concat(m.sender.as_str(), " [");
        let b = concat(a.as_str(), m.time.as_str());
        let c = concat(b.as_str(), "]\n");
        let entry = concat(c.as_str(), m.body.as_str());
        proof {
            assert(view.messages@.take(i + 1).drop_last() =~= view.messages@.take(i as int));
        }
        if i == 0 {
            out = entry;
        } else {
            let sep = concat(out.as_str(), "\n\n");
            out = concat(sep.as_str(), entry.as_str());
        }
        i = i + 1;
    }
    proof {
        assert(view.messages@.take(i as int) =~= view.messages@);
    }
    out
}

} // verus!
