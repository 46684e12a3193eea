//! Deadlock avoidance for locks and counting semaphores: a multi-resource
//! Banker's-algorithm safety check over lazily growing tables.

pub mod detector;
pub mod resource_list;
pub mod safety;
pub mod table;

pub use detector::Detector;
pub use resource_list::ResourceList;
