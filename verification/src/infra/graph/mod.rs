//! Microsoft Graph adapter logic: message HTML rendering, URL builders and
//! HTTP status classification.
pub mod client;
pub mod html;
