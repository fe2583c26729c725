//! Tests of the sidecar update protocol pieces: path derivation, the
//! skip/overwrite decision, the written properties, and the tracklog
//! placeholder source.

use std::collections::HashMap;

use geotag::{
    exif_namespace, gps_properties, has_nonempty, should_write, sidecar_path, u64_to_string,
    CoordTagger, GeoTagError, Tagger, TracklogTagger,
};

/// One update invocation against an in-memory property store: the
/// decision and the written properties come from the library, the map
/// stands in for the XMP engine.
fn update_store(
    store: &mut HashMap<String, String>,
    source: &CoordTagger,
    path: &str,
    overwrite: bool,
) -> bool {
    let has_lat = has_nonempty(&store.get("GPSLatitude").cloned());
    let has_lon = has_nonempty(&store.get("GPSLongitude").cloned());
    if !should_write(has_lat, has_lon, overwrite) {
        return false;
    }
    let coords = source.get_coord_for_file(path);
    for (name, value) in gps_properties(&coords.0, &coords.1) {
        store.insert(name, value);
    }
    true
}

#[test]
fn test_sidecar_path_replaces_extension() {
    assert_eq!(sidecar_path("dir/photo.jpg").unwrap(), "dir/photo.xmp");
    assert_eq!(sidecar_path("photo.jpg").unwrap(), "photo.xmp");
    assert_eq!(sidecar_path("/a/b/c.tif").unwrap(), "/a/b/c.xmp");
}

#[test]
fn test_sidecar_path_without_extension() {
    assert_eq!(sidecar_path("photo").unwrap(), "photo.xmp");
    assert_eq!(sidecar_path("dir/photo").unwrap(), "dir/photo.xmp");
    assert_eq!(sidecar_path("dir/").unwrap(), "dir.xmp");
}

#[test]
fn test_sidecar_path_hidden_and_multi_dot() {
    assert_eq!(sidecar_path(".bashrc").unwrap(), ".bashrc.xmp");
    assert_eq!(sidecar_path("a.b.c").unwrap(), "a.b.xmp");
    assert_eq!(sidecar_path("dir.d/x").unwrap(), "dir.d/x.xmp");
}

#[test]
fn test_sidecar_path_without_stem() {
    assert!(sidecar_path("").is_none());
    assert!(sidecar_path("/").is_none());
    assert!(sidecar_path("///").is_none());
    assert!(sidecar_path(".").is_none());
    assert!(sidecar_path("./").is_none());
    assert!(sidecar_path("/.").is_none());
    assert!(sidecar_path("..").is_none());
    assert!(sidecar_path("dir/..").is_none());
}

#[test]
fn test_sidecar_path_skips_trailing_dot_components() {
    assert_eq!(sidecar_path("dir/.").unwrap(), "dir.xmp");
    assert_eq!(sidecar_path("dir/./").unwrap(), "dir.xmp");
    assert_eq!(sidecar_path("a/b/./.").unwrap(), "a/b.xmp");
    assert_eq!(sidecar_path("./a.png").unwrap(), "./a.xmp");
}

#[test]
fn test_should_write_decision() {
    // Nothing tagged yet: written whatever the flag says.
    assert!(should_write(false, false, false));
    assert!(should_write(false, false, true));
    // Tagged: skipped unless overwriting.
    assert!(!should_write(true, false, false));
    assert!(!should_write(false, true, false));
    assert!(!should_write(true, true, false));
    assert!(should_write(true, true, true));
}

#[test]
fn test_update_writes_once_then_skips() {
    let source = CoordTagger::new("12.34,-45.54");
    assert!(source.is_ok());
    let mut store: HashMap<String, String> = HashMap::new();

    assert!(update_store(&mut store, &source, "photo.jpg", false));
    let after_first = store.clone();
    assert_eq!(store.get("GPSLatitude").unwrap(), "12,20.400000N");
    assert_eq!(store.get("GPSLongitude").unwrap(), "45,32.400000W");
    assert_eq!(store.get("GPSVersionID").unwrap(), "2.2.0.0");
    assert_eq!(store.get("GPSAltitude").unwrap(), "0/10000");

    // The second identical call detects the geotag and changes nothing.
    assert!(!update_store(&mut store, &source, "photo.jpg", false));
    assert_eq!(store, after_first);
}

#[test]
fn test_update_overwrite_replaces() {
    let old = CoordTagger::new("12.34,-45.54");
    let new = CoordTagger::new("45.520514,-73.582707");
    let mut store: HashMap<String, String> = HashMap::new();

    assert!(update_store(&mut store, &old, "photo.jpg", false));
    // Without the flag the new coordinates are not written.
    assert!(!update_store(&mut store, &new, "photo.jpg", false));
    assert_eq!(store.get("GPSLatitude").unwrap(), "12,20.400000N");

    // With it they replace the old ones.
    assert!(update_store(&mut store, &new, "photo.jpg", true));
    assert_eq!(store.get("GPSLatitude").unwrap(), "45,31.230840N");
    assert_eq!(store.get("GPSLongitude").unwrap(), "73,34.962420W");
}

#[test]
fn test_has_nonempty() {
    assert!(has_nonempty(&Some("12,20.400000N".to_owned())));
    assert!(!has_nonempty(&Some(String::new())));
    assert!(!has_nonempty(&None));
}

#[test]
fn test_gps_properties() {
    let props = gps_properties("12,20.400000N", "45,32.400000W");
    assert_eq!(props.len(), 4);
    assert_eq!(props[0], ("GPSLatitude".to_owned(), "12,20.400000N".to_owned()));
    assert_eq!(props[1], ("GPSLongitude".to_owned(), "45,32.400000W".to_owned()));
    assert_eq!(props[2], ("GPSVersionID".to_owned(), "2.2.0.0".to_owned()));
    assert_eq!(props[3], ("GPSAltitude".to_owned(), "0/10000".to_owned()));
}

#[test]
fn test_exif_namespace() {
    assert_eq!(exif_namespace(), "http://ns.adobe.com/exif/1.0/");
}

#[test]
fn test_tracklog_source_is_never_usable() {
    let t = TracklogTagger::new("track.gpx");
    assert!(!t.is_ok());
    let coords = t.get_coord_for_file("photo.jpg");
    assert_eq!(coords, (String::new(), String::new()));
}

#[test]
fn test_error_messages() {
    let io = GeoTagError::IoError("no such file".to_owned());
    assert_eq!(io.message().as_str(), "no such file");
    let xmp = GeoTagError::XmpError("bad packet".to_owned());
    assert_eq!(xmp.message().as_str(), "bad packet");
}

#[test]
fn test_u64_to_string() {
    assert_eq!(u64_to_string(0), "0");
    assert_eq!(u64_to_string(7), "7");
    assert_eq!(u64_to_string(45), "45");
    assert_eq!(u64_to_string(18446744073709551615), "18446744073709551615");
}
