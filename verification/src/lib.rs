pub mod bundler;
pub mod bytes;
pub mod edit;
pub mod errors;
pub mod laws;
pub mod parse;
pub mod scan;
pub mod tree;

pub use bundler::Bundler;
pub use edit::Edit;
pub use errors::BundleError;
