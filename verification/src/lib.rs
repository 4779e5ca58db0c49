//! Server-side engine of a multi-room Texas Hold'em service: cards and hand
//! evaluation, the wire protocol, the betting state machine of one table and
//! the room bookkeeping around it, with a few helpers for a frontend.

pub mod cards;
pub mod select;
pub mod evaluate;
pub mod best;
pub mod optimal;
pub mod ranking;
pub mod equity;
pub mod decided;
pub mod protocol;
pub mod random;
pub mod text;
pub mod game;
pub mod dealing;
pub mod seats;
pub mod showdown;
pub mod room;
pub mod handler;
pub mod directory;
pub mod lobby;
pub mod display;
