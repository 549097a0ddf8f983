//! Relics: fungible tokens on Bitcoin UTXOs, with keepsake protocol messages,
//! enshrining and mint terms, balance allocation and index entries.

pub mod relic_id;

pub use relic_id::{relic_id, spec_relic_id, RelicId, RELIC_ID_BLOCK, RELIC_ID_TX};
pub mod enshrining;
pub mod flaw;

pub use enshrining::{BoostTerms, Enshrining, MintTerms, MultiMint, PriceModel};
pub use flaw::RelicFlaw;
pub mod script;
pub mod transaction;

pub use transaction::{Transaction, TxOut};
pub mod keepsake;

pub use keepsake::{flag::Flag, tag::Tag, Keepsake, RelicArtifact, RelicCenotaph};
pub mod swap;
pub mod transfer;

pub use swap::Swap;
pub use transfer::Transfer;
pub mod spaced_relic;

pub use spaced_relic::{Relic, SpacedRelic};
pub mod txid;

pub use txid::Txid;
pub mod pool;
pub mod error;
pub mod entry;

pub use pool::{BalanceDiff, Pool, PoolError, PoolSwap, SwapDirection};
pub use error::RelicError;
pub use entry::{RelicEntry, RelicState};
pub mod ledger;
pub mod balance;
pub mod block;

pub use balance::RelicsBalance;
pub mod encode;
pub mod updater;
pub mod inscriptions;
pub mod flows;
pub mod indexer;
pub mod relic_json;
pub mod selection;
pub mod wallet;
