//! A tree hash over byte strings: the input is cut into leaves of
//! [`CHUNK_SIZE`] bytes, the leaves are hashed, and the hashes are combined
//! pairwise into a binary tree whose root is the digest.
//!
//! The shape of the tree is fixed by the input's length alone, so that the
//! all-at-once functions, the incremental [`State`], the streaming [`Writer`]
//! and the parallel [`RayonWriter`] all arrive at the same root.

pub mod merger;
pub mod node;
pub mod parallel;
pub mod pieces;
pub mod shape;
pub mod tree;
pub mod writer;

pub use merger::State;
pub use node::{hash_node, parent_hash, Finalization, ParentNode};
pub use parallel::{
    default_max_jobs, max_jobs, received_job, valid_job_size, RayonWriter, WorkerHungUp, JOB_SIZE,
};
pub use shape::{
    largest_power_of_two, left_len, CHUNK_SIZE, HASH_SIZE, HEADER_SIZE, MAX_DEPTH,
    MAX_SINGLE_THREADED, PARENT_SIZE,
};
pub use tree::{hash, hash_recurse, hash_recurse_rayon, hash_single_threaded};
pub use writer::Writer;
