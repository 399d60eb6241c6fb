//! The retrieval service: requests, forms and what is answered.

pub mod assets;
pub mod fields;
pub mod form;
pub mod http;
pub mod live;
pub mod route;
pub mod search;
pub mod views;
