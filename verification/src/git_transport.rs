pub mod deltas;
pub mod pack_file;
pub mod ref_discovery;
