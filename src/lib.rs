//! Reconciliation of two tables on a key column, and partitioning of one
//! table by the distinct values of a key column.

pub mod table;
pub mod normalize;
pub mod compare_rows;
pub mod compare;
pub mod compare_laws;
pub mod split;
