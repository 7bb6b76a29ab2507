//! What holds of the library as a whole.

pub mod texts;
pub mod realms;
pub mod keys;
pub mod asking;
pub mod registering;
pub mod discovering;
pub mod lifecycle;
pub mod starting;
pub mod disposing;
pub mod tasks;
pub mod ending;
pub mod stepping;
pub mod batches;
pub mod dispatch;
pub mod listening;
pub mod slices;
pub mod trees;
pub mod complaints;
pub mod loading;
pub mod equality;
pub mod values;
pub mod mounting;
pub mod reconciling;
pub mod kinds;
pub mod idleness;
pub mod snapshots;
pub mod expansion;
