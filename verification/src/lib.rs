//! Lays text out in monospace blocks for a Telegram bot, in one of four
//! modes, each block within Telegram's message size, and decides what the
//! bot answers.

pub mod text;
pub mod modes;
pub mod delivery;
pub mod replies;
pub mod routing;
