pub mod text;
pub mod announce;
pub mod versions;
pub mod crypto;
pub mod session;
pub mod config;
pub mod resolve;
pub mod paths;
pub mod boot;
