//! A minimal HTTP front end: a parser that turns the raw text of a request
//! into a structured request, and route templates that are compiled into
//! matchers which test request paths and extract named parameters.

pub mod engine;
pub mod render;
pub mod request;
pub mod route;
pub mod template;
pub mod text;

pub use crate::request::{Method, Request};
pub use crate::route::{MatchResult, PatternError, Route};
pub use crate::template::{Parameter, TypeClass};
