//! Schema snapshot model and differential comparison engine.
//!
//! A `DBInfo` captures a point-in-time snapshot of a relational schema's
//! structural metadata (tables and columns). `compare` classifies the drift
//! between a stored baseline snapshot and a fresh one — missing or added
//! tables, missing or added columns, and type changes — into report rows,
//! and optionally synthesizes `ALTER TABLE` remediation statements for
//! columns missing from the current schema. A binary codec persists
//! snapshots with proved round-trip fidelity.

pub mod canon;
pub mod codec;
pub mod connect;
pub mod diff;
pub mod laws;
pub mod model;
pub mod text;

pub use codec::{decode_snapshot, encode_snapshot, StoreError};
pub use connect::ConnConfig;
pub use diff::{compare, DiffRow, DiffStatus};
pub use model::{ColInfo, DBInfo, TableInfo};
