//! A reminder bot for waste collection dates: a collection calendar is read
//! from a semicolon separated table, the next collection is looked up, and
//! chat messages are composed for subscribers.

pub mod bot;
pub mod calendar;
pub mod dates;
pub mod id_list;
pub mod reminder;
pub mod text;
pub mod tgapi;
