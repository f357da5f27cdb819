pub mod codec;
pub mod compress;
pub mod config;
pub mod content;
pub mod feed;
pub mod negotiation;
pub mod strutil;
pub mod time;
