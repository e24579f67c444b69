//! Decision logic of a resource-collecting game bot: movement strategies on a
//! grid, the proof-of-work nonce search done by each miner worker, and the
//! reactions of the bot's main loop to server events.

pub mod bot;
pub mod miner;
pub mod paths;
pub mod search;
pub mod state;
pub mod strategy;
