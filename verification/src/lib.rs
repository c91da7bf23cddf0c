//! Verified building blocks of the market-data backend.
pub mod admin;
pub mod candle_cache;
pub mod chat;
pub mod headers;
pub mod investing;
pub mod health;
pub mod listing;
pub mod lru;
pub mod platform;
pub mod price;
pub mod seo;
pub mod settings;
pub mod simulator;
pub mod socket;
pub mod status;
pub mod text;
pub mod variables;
pub mod volume;
pub mod wms;
pub mod vdsc;
