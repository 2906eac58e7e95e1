//! Reads the containers, the name pool and the virtual tables of an Unreal Engine process out of
//! its memory.
//!
//! Nothing here performs a read. A function that needs the target's memory returns a [`task`],
//! which says which bytes it needs next and is resumed with them, so that the caller decides how
//! the bytes are fetched.
pub mod bytes;
pub mod task;
pub mod mem;
pub mod text;
pub mod names;
pub mod pool;
pub mod pool_laws;
pub mod arrays;
pub mod script;
pub mod vtable;
pub mod trimming;
pub mod encoding;
pub mod mem_laws;
pub mod name_laws;
pub mod extraction_laws;
pub mod container_laws;
pub mod vtable_laws;
pub mod task_laws;
