//! Geotagging engine: coordinate sources that supply a formatted
//! (latitude, longitude) pair per image, the decimal-degree to
//! degree/decimal-minute conversion, and the sidecar update protocol —
//! which file is written, what is written into it, and when an existing
//! geotag is kept.

mod coord;
mod digits;
mod sidecar;
mod tagger;
mod text;
mod tracklog;

pub use coord::dd_to_dmfract;
pub use coord::parse_degrees;
pub use coord::CoordTagger;
pub use coord::DecimalDegrees;
pub use digits::u64_to_string;
pub use sidecar::exif_namespace;
pub use sidecar::gps_properties;
pub use sidecar::has_nonempty;
pub use sidecar::should_write;
pub use sidecar::sidecar_path;
pub use sidecar::GeoTagError;
pub use tagger::Tagger;
pub use tracklog::TracklogTagger;
