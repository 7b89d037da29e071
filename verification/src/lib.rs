//! Atlas-driven sprite re-theming: parsing of the atlas text, canonical sprite
//! names, alpha masking, sheet reconstruction, distribution paths and the
//! consistency checks, all on plain bytes and pixels.

pub mod bytes;
pub mod record;
pub mod atlas;
pub mod atlas_laws;
pub mod raster;
pub mod raster_laws;
pub mod masking;
pub mod sheets;
pub mod distribute;
pub mod validate;
