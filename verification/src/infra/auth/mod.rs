//! Sign-in: device-code protocol decisions and refresh-token storage.
pub mod device_code;
pub mod token_store;
