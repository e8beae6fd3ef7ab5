//! Incoming updates.

use vstd::prelude::*;

verus! {

/// An update delivered to the bot.
#[derive(Debug)]
pub struct Update {
    pub update_id: i32,
    pub message: Option<Message>,
}

/// A chat message.
#[derive(Debug)]
pub struct Message {
    pub chat: Chat,
    pub text: Option<String>,
}

/// A chat.
#[derive(Debug)]
pub struct Chat {
    pub id: i64,
}

} // verus!
