pub mod log;
pub mod logger;
pub mod manager;
pub mod record;

pub use log::WriteAheadLog;
pub use logger::WriteAheadLogger;
pub use manager::WalManager;
pub use record::{replay_bytes, WalRecord};
