//! Finds HTTP and HTTPS links in text, resolves the address each one
//! redirects to, and rewrites the text with the resolved addresses.
pub mod redirect;
pub mod replace;
pub mod resolve;
pub mod text;
pub mod url;
