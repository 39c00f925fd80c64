//! A simple coin ledger with delegated staking: balances, signed transfers,
//! delegation to validators, and per-block staking rewards.

pub mod address;
pub mod assoc;
pub mod coin;
pub mod encoding;
pub mod error;
pub mod laws;
pub mod ledger;
pub mod net;
pub mod staking;
pub mod sums;

pub use address::{Address, AddressOrder};
pub use coin::{Eerie, Fresh, Signer, SimpleCoin};
pub use encoding::{parse_validator_address, validator_address_from_bytes};
pub use error::{plural_suffix, Error};
pub use ledger::Ledger;
pub use net::{FreshNet, BLOCK_REWARD};
pub use staking::{Staking, Validators};
