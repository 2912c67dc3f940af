//! Writes a KnightOS KFS filesystem into a ROM image held in memory.
//!
//! A model, the tree of directories, files and symbolic links that is to be
//! stored, goes into the image in two regions that grow towards each other:
//! the FAT, which is filled downwards from the top of its first page with one
//! reversed entry for each node, and the DAT, which is filled upwards from page
//! 4 with the content of the files in chained sections of 256 bytes.
//!
//! [`context::Context`] is the writer. What it leaves in the image is said by
//! the functions of [`store`] and [`image`], over the traversal sequence of
//! [`model`] in the order of [`order`]. What follows from them is proved in
//! [`frame`] (which bytes a step can change), [`chain`] (files read back as
//! their content), [`fat`] (the FAT reads back as the traversal sequence),
//! [`sections`] (where each chain starts), [`room`] (when a run ends well),
//! [`tree`] (directory numbers), [`listing`] (the order of listing does not
//! matter) and, for whole runs, [`laws`].

use vstd::prelude::*;

pub mod arith;
pub mod bytes;
pub mod chain;
pub mod context;
pub mod entry;
pub mod error;
pub mod fat;
pub mod frame;
pub mod image;
pub mod laws;
pub mod layout;
pub mod listing;
pub mod model;
pub mod order;
pub mod room;
pub mod sections;
pub mod store;
pub mod tree;
