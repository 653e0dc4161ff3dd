//! Verified core of a desktop tool that downloads activity photos and articles
//! from the Educartable service and keeps login tokens in the system keyring.

pub mod api;
pub mod auth;
pub mod chunks;
pub mod models;
pub mod session;
pub mod sync;
pub mod text;
pub mod updater;
