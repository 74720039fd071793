//! Verified core of the historical map generator: quantized geometry
//! and shared-arc extraction, the ingest of epoch states into a
//! narrated timeline, the waters as regions, the entity registry, the
//! atlas exports and place binding, the canon's worlds,
//! references and validator, change events and selection at a time,
//! the sphere partition's structure and identity, reconciliation, atlas
//! binding and audit, the vendored-payload readers, and the small
//! codecs around them.

pub mod text;
pub mod sorting;
pub mod quantize;
pub mod arcs;
pub mod basemaps;
pub mod canon;
pub mod persist;
pub mod idmap;
pub mod registry;
pub mod registry_laws;
pub mod palette;
pub mod exports;
pub mod json;
pub mod reconcile;
pub mod fnv;
pub mod encoders;
pub mod years;
pub mod bridge;
pub mod vendor;
pub mod narratives;
pub mod world;
pub mod partition;
pub mod eras;
pub mod audit;
pub mod canon_check;
pub mod canon_file;
pub mod merging;
pub mod changes;
pub mod sweep;
pub mod selection;
pub mod journeys;
pub mod rivers;
pub mod timeline;
pub mod waters;
