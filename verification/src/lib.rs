//! Reconciles a legacy inventory export (two fixed-column tab-separated
//! sources) against a vendor-supplied product export: barcodes are
//! repaired through their checksum, the catalog is indexed by barcode to
//! surface cross-sku collisions, and every vendor product is classified as
//! new, needs-review or cleanly matched under a configurable price-delta
//! policy. Matched items yield an ordered plan of corrective edits for an
//! inventory edit port.

pub mod codec;
pub mod decimal;
pub mod product;
pub mod classify;
pub mod catalog;
pub mod fixers;
pub mod reports;
pub mod driver;
