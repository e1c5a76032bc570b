//! Watches one liquidity pool for swap events and reports them only once the
//! blocks that contain them are confirmed: buffered until a fixed number of
//! later blocks have been seen, then re-checked against the canonical chain so
//! that a reorganization is detected rather than silently reported.

pub mod amount;
pub mod config;
pub mod events;
pub mod report;
pub mod store;

pub use amount::Int256;
pub use config::Config;
pub use events::RawLog;
pub use events::SwapEvent;
pub use events::decode_swap_event;
pub use events::decode_logs;
pub use report::Direction;
pub use report::classify_direction;
pub use report::direction_label;
pub use report::format_block_report;
pub use store::ConfirmedBlock;
pub use store::PendingBlockStore;
pub use store::ReorgDetected;
pub use store::header_identity;
pub use store::sweep_cutoff;
