//! The handlers: one function from request to response for each endpoint.

pub mod echo;
pub mod file;
pub mod home;
pub mod user_agent;
