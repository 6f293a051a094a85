//! Runtime core of the corr journey runner: typed values, validation of
//! user-supplied raw values, a path-addressed variable store with aliasing
//! list elements, and the conversation rules used by the front ends.
pub mod conversation;
pub mod env;
pub mod json;
pub mod keys;
pub mod path;
pub mod proto;
pub mod text;
pub mod store;
pub mod value;
