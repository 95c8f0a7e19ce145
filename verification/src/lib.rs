//! Verified core of the PicoLV2 tool chain: the flash bundle format, the
//! image builder and the graph compiler.

pub mod le;
pub mod bundle;
pub mod pack;
pub mod uf2;
pub mod rdf;
pub mod topo;
pub mod order;
pub mod ingen;
pub mod graph;
pub mod decimal;
pub mod patch_formats;
pub mod metadata;
pub mod builder;
pub mod midi;
pub mod atom;
pub mod manifest;
pub mod arc_graph;
pub mod voices;
pub mod plugin_ports;
pub mod urid;
pub mod connect;
