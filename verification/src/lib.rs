//! Core pipeline of a public game-server browser: ingesting server records
//! from a matchmaking API, caching them atomically, keeping a rolling history
//! of player counts, aggregating that history for charts, filtering and
//! sorting snapshots, and parsing the rich-text markup used in server names
//! and descriptions.

pub mod text;
pub mod order;
pub mod records;
pub mod style;
pub mod markup;
pub mod aggregate;
pub mod store;
pub mod filter;
pub mod versions;
pub mod coordinator;
