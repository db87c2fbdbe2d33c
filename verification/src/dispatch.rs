//! What to do with an incoming message: run a command, show usage,
//! forward it, or leave it alone.
use vstd::prelude::*;
use crate::text::{
    chars_of, has_prefix, split_whitespace, split_ws, starts_with, string_of, strings_view, trim,
    trim_ws,
};

verus! {

/// What to do with an incoming message.
pub enum Dispatch {
    /// Nothing.
    Ignore,
    /// Reply with the usage text.
    Usage,
    /// Run the command given by these words.
    Command(Vec<String>),
    /// Offer the message to the forwarding rules.
    Forward,
}

/// The mathematical content of a [`Dispatch`].
pub enum DispatchView {
    Ignore,
    Usage,
    Command(Seq<Seq<char>>),
    Forward,
}

impl View for Dispatch {
    type V = DispatchView;

    open spec fn view(&self) -> DispatchView {
        match self {
            Dispatch::Ignore => DispatchView::Ignore,
            Dispatch::Usage => DispatchView::Usage,
            Dispatch::Command(words) => DispatchView::Command(strings_view(words@)),
            Dispatch::Forward => DispatchView::Forward,
        }
    }
}

/// The decision for a message with text `text` (empty when it has none)
/// from `user_id`, received by the bot `self_id`: commands are for admins
/// only, other slash-messages and the bot's own messages are dropped.
pub open spec fn dispatch_of(text: Seq<char>, user_id: i64, self_id: i64, is_admin: bool) -> DispatchView {
    let t = trim_ws(text);
    if has_prefix(t, "/transfer"@) {
        if !is_admin {
            DispatchView::Ignore
        } else if split_ws(t).len() < 2 {
            DispatchView::Usage
        } else {
            DispatchView::Command(split_ws(t))
        }
    } else if has_prefix(t, "/"@) {
        DispatchView::Ignore
    } else if user_id == self_id {
        DispatchView::Ignore
    } else {
        DispatchView::Forward
    }
}

/// Decides what to do with an incoming message.
pub fn classify_message(text: &str, user_id: i64, self_id: i64, is_admin: bool) -> (d: Dispatch)
    ensures
        d@ == dispatch_of(text@, user_id, self_id, is_admin),
{
    let chars = chars_of(text);
    let t = trim(chars.as_slice());
    if starts_with(t.as_slice(), "/transfer") {
        if !is_admin {
            Dispatch::Ignore
        } else {
            let words = split_whitespace(t.as_slice());
            if words.len() < 2 {
                Dispatch::Usage
            } else {
                Dispatch::Command(words)
            }
        }
    } else if starts_with(t.as_slice(), "/") {
        Dispatch::Ignore
    } else if user_id == self_id {
        Dispatch::Ignore
    } else {
        Dispatch::Forward
    }
}

/// Messages that start with `/` (commands among them) and the bot's own
/// messages are never offered for forwarding; only admins reach a command
/// or its usage text; a command is run with all the words of the message.
pub proof fn law_dispatch_guards(text: Seq<char>, user_id: i64, self_id: i64, is_admin: bool)
    ensures
        dispatch_of(text, user_id, self_id, is_admin) is Forward ==> !has_prefix(
            trim_ws(text),
            "/"@,
        ) && !has_prefix(trim_ws(text), "/transfer"@) && user_id != self_id,
        (dispatch_of(text, user_id, self_id, is_admin) is Command || dispatch_of(
            text,
            user_id,
            self_id,
            is_admin,
        ) is Usage) ==> is_admin && has_prefix(trim_ws(text), "/transfer"@),
        dispatch_of(text, user_id, self_id, is_admin) matches DispatchView::Command(ws) ==> ws
            == split_ws(trim_ws(text)) && ws.len() >= 2,
{
}

/// An admin's `/transfer` message is run as a command, with exactly its
/// words, as soon as it has at least two words (`/transfer list` is run);
/// the usage text answers only when it has fewer than two.
pub proof fn law_admin_commands_run(text: Seq<char>, user_id: i64, self_id: i64)
    requires
        has_prefix(trim_ws(text), "/transfer"@),
    ensures
        split_ws(trim_ws(text)).len() >= 2 ==> dispatch_of(text, user_id, self_id, true)
            == DispatchView::Command(split_ws(trim_ws(text))),
        (dispatch_of(text, user_id, self_id, true) == DispatchView::Usage) <==> split_ws(
            trim_ws(text),
        ).len() < 2,
        dispatch_of(text, user_id, self_id, true) is Command || dispatch_of(
            text,
            user_id,
            self_id,
            true,
        ) is Usage,
{
}

/// The usage text shown for a bare `/transfer`.
pub open spec fn usage_text() -> Seq<char> {
    "用法:\n/transfer add <private|group|group_user> <id> [id] -> <private|group> <id>\n/transfer remove <index>\n/transfer list\n/transfer enable <index>\n/transfer disable <index>"@
}

/// The usage text shown for a bare `/transfer`.
pub fn usage_reply() -> (s: String)
    ensures
        s@ == usage_text(),
{
    string_of(
        "用法:\n/transfer add <private|group|group_user> <id> [id] -> <private|group> <id>\n/transfer remove <index>\n/transfer list\n/transfer enable <index>\n/transfer disable <index>",
    )
}

} // verus!
