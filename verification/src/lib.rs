pub mod assoc;
pub mod cache;
pub mod engine;
pub mod failure_tracker;
pub mod gate;
pub mod hash;
pub mod protocol;
pub mod rate_limiter;
pub mod similarity;
pub mod store;
pub mod text;
pub mod validator;
