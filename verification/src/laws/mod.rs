//! What holds of the library as a whole.

pub mod authority;
pub mod call;
pub mod chunk;
pub mod client;
pub mod exchange;
pub mod number;
pub mod request;
pub mod response;
pub mod sequence;
pub mod text;
pub mod url;
pub mod view;
pub mod wire;
