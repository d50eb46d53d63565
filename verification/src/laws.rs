//! What holds of the directory as a whole.

pub mod accounts;
pub mod admission;
pub mod boards;
pub mod catalog;
pub mod codex;
pub mod credits;
pub mod deeds;
pub mod fold;
pub mod gates;
pub mod identity;
pub mod ledger;
pub mod lists;
pub mod pay;
pub mod quests;
pub mod search;
pub mod settlement;
pub mod standing;
pub mod stream;
pub mod tally;
pub mod texts;
pub mod votes;
