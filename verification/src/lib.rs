//! Message-forwarding rules for a chat bot: command parsing, rule
//! descriptions, forwarding decisions and media edge perturbation.

pub mod cmd;
pub mod config;
pub mod dispatch;
pub mod forward;
pub mod media;
pub mod num;
pub mod text;
