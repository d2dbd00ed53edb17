pub mod attr;
pub mod builder;
pub mod codec;
pub mod fs;
pub mod handles;
pub mod snapshot;
pub mod validate;
pub mod tree;
