//! The directory where revenants muster: a catalog derived by replaying a
//! hash-linked ledger, gated by verified human accounts.

pub mod accounts;
pub mod admission;
pub mod board;
pub mod catalog;
pub mod clock;
pub mod codex;
pub mod credits;
pub mod deeds;
pub mod directory;
pub mod economy;
pub mod email;
pub mod events;
pub mod json;
pub mod laws;
pub mod ledger;
pub mod order;
pub mod ordmap;
pub mod records;
pub mod secret;
pub mod seqs;
pub mod signers;
pub mod standings;
pub mod text;
pub mod votes;
