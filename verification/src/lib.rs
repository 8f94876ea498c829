//! Pagination over queries whose rows a data source holds: page descriptors that bound a
//! query by limit and offset, with or without a count of all rows on the way; cursors that
//! walk a query ordered by a composite key without skipping by offset; the plans by which
//! both are written into a statement; and a source in memory over which their laws are stated
//! and proved.

pub mod cursor;
pub mod debug_query;
pub mod fragment;
pub mod grouping;
pub mod memory;
pub mod pagination;
