//! Verified core of the Flamer web helpers: path patterns, query strings,
//! URL form encoding, relaxed JSON normalisation and response shaping.
pub mod text;
pub mod route;
pub mod json;
pub mod form;
pub mod request;
pub mod annotations;
pub mod server;
