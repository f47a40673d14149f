//! Verified core of a versioned filesystem over object storage.

pub mod assembly;
pub mod authority;
pub mod batches;
pub mod changes;
pub mod codec;
pub mod collection;
pub mod commits;
pub mod convergence;
pub mod engine;
pub mod error;
pub mod evolution;
pub mod extents;
pub mod filesystem;
pub mod hash;
pub mod identity;
pub mod input;
pub mod install;
pub mod layers;
pub mod model;
pub mod namespace;
pub mod objects;
pub mod order;
pub mod ordered;
pub mod path;
pub mod paths;
pub mod persistence;
pub mod plan;
pub mod publication;
pub mod reconcile;
pub mod renames;
pub mod replica;
pub mod restore;
pub mod runs;
pub mod scan;
pub mod segments;
pub mod spool;
pub mod streams;
pub mod succession;
pub mod text;
pub mod threeway;
pub mod tree;
pub mod upload;
pub mod version;
pub mod views;
pub mod volume;
pub mod wire;
pub mod work;
