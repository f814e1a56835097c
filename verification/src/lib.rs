//! Verified core of the manga toolkit: text handling, renaming, port tables,
//! page-split geometry and artifact bookkeeping.
pub mod text;
pub mod names;
pub mod rename;
pub mod ports;
pub mod regions;
pub mod split;
pub mod manual;
pub mod jobs;
pub mod endpoints;
pub mod artifact;
pub mod volumes;
pub mod layout;
pub mod upload;
