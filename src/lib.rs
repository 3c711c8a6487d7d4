pub mod contract;
pub mod identity;
pub mod laws;
pub mod listing;
