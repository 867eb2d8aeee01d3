//! A byte rope over shared chunks.
//!
//! [`ByteRope`] keeps a few chunks in a flat list and many in a tree. [`Builder`] makes one out of
//! many small writes, [`Tagged`] charges its length to an owner, and [`Rope`] knows of what kind its
//! bytes are.

mod access;
pub mod builder;
pub mod byte_rope;
pub mod chunk_iter;
pub mod compare;
pub mod convert;
mod edit;
pub mod endpoints;
mod ends;
pub mod equality;
pub mod error;
mod join;
pub mod laws;
mod node;
mod owned;
mod parts;
pub mod range;
pub mod replace;
pub mod rewrite;
mod seam;
pub mod set_byte;
pub mod shape;
pub mod stream;
pub mod tagged;
mod take;
pub mod text_rope;
mod tree;
mod walk;
mod write;

pub use builder::Behavior;
pub use builder::Builder;
pub use builder::DefaultBehavior;
pub use byte_rope::ByteRope;
pub use byte_rope::ByteVec;
pub use chunk_iter::ChunkIter;
pub use chunk_iter::Chunks;
pub use chunk_iter::DrainIter;
pub use chunk_iter::IntoChunks;
pub use edit::COW_SPLIT_ABOVE;
pub use error::ByteRopeError;
pub use error::ByteVecError;
pub use node::FANOUT;
pub use parts::DEMOTE_AT;
pub use parts::PROMOTE_AT;
pub use range::Bound;
pub use range::ByteRange;
pub use replace::COALESCE_MAX;
pub use stream::Reader;
pub use tagged::Handle;
pub use tagged::Owner;
pub use tagged::Tagged;
pub use text_rope::InvalidUtf8;
pub use text_rope::Kind;
pub use text_rope::Rope;
pub use text_rope::Utf8;
