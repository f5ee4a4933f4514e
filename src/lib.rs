//! Content negotiation, client address resolution and conditional caching
//! for a small diagnostic HTTP endpoint.
pub mod text;
pub mod media_type;
pub mod accept;
pub mod negotiation;
pub mod client_ip;
pub mod header_listing;
pub mod page;
pub mod asset_cache;
