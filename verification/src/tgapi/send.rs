//! Outgoing messages.

use vstd::prelude::*;

verus! {

/// A message to send to a chat, optionally with a parse mode for its text.
#[derive(Debug)]
pub struct SendMessage {
    pub chat_id: i64,
    pub text: String,
    pub parse_mode: Option<String>,
}

impl SendMessage {
    /// A plain text message.
    pub fn txt(chat_id: i64, text: String) -> (r: SendMessage)
        ensures
            r.chat_id == chat_id,
            r.text == text,
            r.parse_mode is None,
    {
        SendMessage { chat_id, text, parse_mode: None }
    }

    /// A message whose text is Markdown.
    pub fn md(chat_id: i64, text: String) -> (r: SendMessage)
        ensures
            r.chat_id == chat_id,
            r.text == text,
            r.parse_mode matches Some(p) && p@ == "markdown"@,
    {
        let mut mode = String::new();
        mode.append("markdown");
        SendMessage { chat_id, text, parse_mode: Some(mode) }
    }
}

} // verus!
