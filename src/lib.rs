//! Read-only access to a voxel-world save directory: the coordinate model,
//! the file-name grammar of region files, the existence index of a
//! dimension's region files, and the discovery of a world's dimensions.

pub mod coords;
pub mod region_name;
pub mod regionset;
pub mod world;
