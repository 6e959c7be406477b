//! Schema layer of a local inventory / point-of-sale store.
//!
//! The crate models a file-backed relational store as plain data: four
//! tables (products, sales, sale line items, categories), the constraints
//! that hold between them, and a versioned set of schema migrations that a
//! hosting application applies once, at startup, before issuing any other
//! work against the store.
//!
//! `rows` holds the rows of the four tables; `store` holds the store
//! itself, its invariant and its row-level operations; `migrate` holds the
//! migration units and the manager that applies them in ascending version
//! order, at most once each; `laws` proves the store-wide guarantees the
//! migration set provides.

pub mod laws;
pub mod migrate;
pub mod rows;
pub mod store;
