//! An in-memory tree of files and directories, held in an arena and addressed
//! by node handles.

pub mod fs_node;
pub mod laws;
pub mod walk;
