//! A small blockchain validation core: an escape-time proof-of-work verdict,
//! an event-sourced ledger that conserves value, and a block graph with a
//! deterministic longest-chain rule.

pub mod blockchain;
pub mod graph;
pub mod ledger;
pub mod proof_of_work;
pub mod validator;

pub use blockchain::{AddBlockError, AddBlockOk, Block, BlockGraph, BlockId};
pub use ledger::{
    AcceptEventError, Amount, Ledger, LedgerEvent, PublicKey, Signature, TransferVerifierArgs,
    UserId, UserSummary,
};
pub use proof_of_work::{check_work, DoWorkError};
pub use validator::{replay_chain, BlockIngestError, ValidatorNode};
