//! Link enrichment subsystem of a personal article service.
//!
//! Articles carry hyperlinks. The library keeps the persisted link set of
//! each article in sync with the links extracted from its latest content
//! (`analyzer::reconcile`), feeds a bounded best-effort queue of enrichment
//! requests (`queue`), and drains that queue through a single worker that
//! owns the one browser session (`worker`). Supporting modules cover token
//! authentication (`auth`), markdown text and link extraction (`extractor`),
//! and the plain data types of the surrounding service (`api`).

pub mod analyzer;
pub mod api;
pub mod auth;
pub mod extractor;
pub mod queue;
pub mod store;
pub mod worker;
