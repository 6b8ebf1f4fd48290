//! Deadlock avoidance for a fixed set of processes sharing countable,
//! non-shareable resource types: declared allocations and maximum needs are
//! validated against a resource budget, and the Banker's safety check either
//! finds a completion order in which every process can finish or reports that
//! none was found.
pub mod error;
pub mod input;
pub mod vector;
pub mod process;
pub mod safety;
pub mod system;
