//! The parts of the Telegram bot API that the bot reads and writes.

use vstd::prelude::*;

pub mod send;
pub mod types;

verus! {

/// The bot's access settings.
#[derive(Debug)]
pub struct ApiConf {
    pub token: String,
}

} // verus!
