//! Persistence of a patch stack inside a content-addressed object store:
//! the snapshot model, its canonical document form, and the decisions
//! taken when a snapshot is written as a commit.

pub mod codec;
pub mod error;
pub mod json;
pub mod meta;
pub mod name;
pub mod oid;
pub mod order;
pub mod refs;
pub mod stack;
pub mod table;
mod text;
pub mod writer;
