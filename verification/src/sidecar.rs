//! The sidecar update protocol: deriving the sidecar path from an image
//! path, deciding whether an existing geotag is kept or replaced, and
//! the properties written when it is not kept.
//!
//! Paths are plain Unix-style strings: components separated by `/`, the
//! file name after the last `/` (ignoring trailing slashes), the
//! extension after the last `.` of the file name. The property store is
//! modelled as a map from property names to values; the engine that
//! persists it does the reading and writing outside this crate.

use vstd::prelude::*;

use crate::text::{last_index_of, lemma_last_index_of_absent, lemma_last_index_of_at};

verus! {

/// Why one file's update failed: a filesystem error on the sidecar
/// file, or a metadata error from the property store (an unparseable
/// sidecar, a refused property, a failed serialization). Each carries
/// the underlying engine's message.
#[derive(Debug)]
pub enum GeoTagError {
    IoError(String),
    XmpError(String),
}

impl GeoTagError {
    /// The underlying engine's message.
    pub fn message(&self) -> (r: &String)
        ensures
            r@ == self.message_spec(),
    {
        match self {
            GeoTagError::IoError(m) => m,
            GeoTagError::XmpError(m) => m,
        }
    }

    /// The message carried by either variant.
    pub open spec fn message_spec(&self) -> Seq<char> {
        match self {
            GeoTagError::IoError(m) => m@,
            GeoTagError::XmpError(m) => m@,
        }
    }
}

/// `p` without its trailing slashes and trailing `.` path components:
/// the file-name lookup ignores both, so `dir/`, `dir/.` and `dir/./`
/// all name the component `dir`.
pub open spec fn trimmed(p: Seq<char>) -> Seq<char>
    decreases p.len(),
{
    if p.len() > 0 && p.last() == '/' {
        trimmed(p.drop_last())
    } else if p.len() > 0 && p.last() == '.' && (p.len() == 1 || p[p.len() - 2] == '/') {
        trimmed(p.drop_last())
    } else {
        p
    }
}

/// The file name of `p`: everything after the last `/`, trailing
/// slashes ignored.
pub open spec fn spec_file_name(p: Seq<char>) -> Seq<char> {
    trimmed(p).subrange(last_index_of(trimmed(p), '/') + 1, trimmed(p).len() as int)
}

/// Whether `p` has a file stem: a non-empty file name other than the
/// `.` and `..` components.
pub open spec fn spec_has_stem(p: Seq<char>) -> bool {
    let name = spec_file_name(p);
    name.len() > 0 && name != seq!['.'] && name != seq!['.', '.']
}

/// The stem of a file name: everything before the last `.`, or the
/// whole name when there is no dot or the name starts with its only
/// dot.
pub open spec fn spec_stem(name: Seq<char>) -> Seq<char> {
    let d = last_index_of(name, '.');
    if d <= 0 {
        name
    } else {
        name.subrange(0, d)
    }
}

/// The sidecar path of `p`: the same directory and stem with the
/// extension replaced by `xmp`, or nothing when `p` has no file stem.
pub open spec fn spec_sidecar_path(p: Seq<char>) -> Option<Seq<char>> {
    if spec_has_stem(p) {
        let q = trimmed(p);
        let dir = q.subrange(0, last_index_of(q, '/') + 1);
        Some(dir + spec_stem(spec_file_name(p)) + ".xmp"@)
    } else {
        None
    }
}

/// Derives the sidecar path belonging to an image path, or `None` when
/// the path has no file stem (and the update is a trivial no-op).
#[verifier::loop_isolation(false)]
#[verifier::rlimit(60)]
pub fn sidecar_path(path: &str) -> (r: Option<String>)
    ensures
        match r {
            Some(p) => spec_sidecar_path(path@) == Some(p@),
            None => spec_sidecar_path(path@) is None,
        },
{
    let n = path.unicode_len();
    // Strip trailing slashes and `.` components: `end` walks back over
    // them until a real final character stands.
    let mut end: usize = n;
    let mut done = false;
    proof {
        assert(path@.take(n as int) =~= path@);
    }
    while !done
        invariant
            0 <= end <= n == path@.len(),
            trimmed(path@) == trimmed(path@.take(end as int)),
            done ==> trimmed(path@.take(end as int)) == path@.take(end as int),
        decreases end, (if done {
            0int
        } else {
            1int
        }),
    {
        if end == 0 {
            done = true;
        } else {
            let c = path.get_char(end - 1);
            let strip = c == '/' || (c == '.' && (end == 1 || path.get_char(end - 2) == '/'));
            proof {
                assert(path@.take(end as int).drop_last() =~= path@.take(end as int - 1));
            }
            if strip {
                end = end - 1;
            } else {
                done = true;
            }
        }
    }
    let ghost q = trimmed(path@);
    proof {
        assert(q =~= path@.take(end as int));
    }
    // Find the last slash before `end`.
    let mut has_slash = false;
    let mut ls: usize = 0;
    let mut j: usize = 0;
    while j < end
        invariant
            0 <= j <= end,
            has_slash ==> ls < j && path@[ls as int] == '/' && forall|k: int|
                ls < k < j ==> path@[k] != '/',
            !has_slash ==> forall|k: int| 0 <= k < j ==> path@[k] != '/',
        decreases end - j,
    {
        let c = path.get_char(j);
        if c == '/' {
            has_slash = true;
            ls = j;
        }
        j += 1;
    }
    let start = if has_slash {
        proof {
            lemma_last_index_of_at(q, '/', ls as int);
        }
        ls + 1
    } else {
        proof {
            lemma_last_index_of_absent(q, '/');
        }
        0
    };
    let ghost name = spec_file_name(path@);
    proof {
        assert(name =~= path@.subrange(start as int, end as int));
    }
    // A missing, `.` or `..` file name has no stem.
    let name_len = end - start;
    if name_len == 0 {
        proof {
            assert(name.len() == 0);
        }
        return None;
    }
    if name_len == 1 && path.get_char(start) == '.' {
        proof {
            assert(name =~= seq!['.']);
        }
        return None;
    }
    if name_len == 2 && path.get_char(start) == '.' && path.get_char(start + 1) == '.' {
        proof {
            assert(name =~= seq!['.', '.']);
        }
        return None;
    }
    proof {
        assert(name.len() > 0);
        if name == seq!['.'] {
            assert(path@[start as int] == name[0]);
            assert(false);
        }
        if name == seq!['.', '.'] {
            assert(path@[start as int] == name[0]);
            assert(path@[start as int + 1] == name[1]);
            assert(false);
        }
    }
    // Find the last dot of the file name.
    let mut has_dot = false;
    let mut ld: usize = 0;
    j = start;
    while j < end
        invariant
            start <= j <= end,
            has_dot ==> start <= ld < j && path@[ld as int] == '.' && forall|k: int|
                ld < k < j ==> path@[k] != '.',
            !has_dot ==> forall|k: int| start <= k < j ==> path@[k] != '.',
        decreases end - j,
    {
        let c = path.get_char(j);
        if c == '.' {
            has_dot = true;
            ld = j;
        }
        j += 1;
    }
    let stem_end = if has_dot && ld > start {
        proof {
            lemma_last_index_of_at(name, '.', ld - start);
        }
        ld
    } else {
        proof {
            if has_dot {
                lemma_last_index_of_at(name, '.', 0);
            } else {
                lemma_last_index_of_absent(name, '.');
            }
        }
        end
    };
    let prefix = path.substring_char(0, stem_end);
    let mut r = String::from_str(prefix);
    r.append(".xmp");
    proof {
        let dir = q.subrange(0, last_index_of(q, '/') + 1);
        assert(dir + spec_stem(name) =~= prefix@);
        assert(dir + spec_stem(name) + ".xmp"@ == r@);
    }
    Some(r)
}

/// The schema under which every GPS property lives.
pub fn exif_namespace() -> (r: &'static str)
    ensures
        r@ == "http://ns.adobe.com/exif/1.0/"@,
{
    "http://ns.adobe.com/exif/1.0/"
}

/// The name of the latitude property.
pub open spec fn k_gps_lat() -> Seq<char> {
    "GPSLatitude"@
}

/// The name of the longitude property.
pub open spec fn k_gps_lon() -> Seq<char> {
    "GPSLongitude"@
}

/// The name of the GPS version property.
pub open spec fn k_gps_version() -> Seq<char> {
    "GPSVersionID"@
}

/// The name of the altitude property.
pub open spec fn k_gps_alt() -> Seq<char> {
    "GPSAltitude"@
}

/// Whether a property store already carries a geotag: a non-empty
/// latitude or longitude property.
pub open spec fn doc_is_tagged(doc: Map<Seq<char>, Seq<char>>) -> bool {
    ||| doc.contains_key(k_gps_lat()) && doc[k_gps_lat()].len() > 0
    ||| doc.contains_key(k_gps_lon()) && doc[k_gps_lon()].len() > 0
}

/// Whether one update invocation writes: always under `overwrite`,
/// otherwise only when no geotag is present yet.
pub open spec fn update_writes(doc: Map<Seq<char>, Seq<char>>, overwrite: bool) -> bool {
    overwrite || !doc_is_tagged(doc)
}

/// The property store after one update invocation with the coordinate
/// pair (`lat`, `lon`): either untouched (a skip) or with the four GPS
/// properties set.
pub open spec fn updated_doc(
    doc: Map<Seq<char>, Seq<char>>,
    lat: Seq<char>,
    lon: Seq<char>,
    overwrite: bool,
) -> Map<Seq<char>, Seq<char>> {
    if update_writes(doc, overwrite) {
        doc.insert(k_gps_lat(), lat).insert(k_gps_lon(), lon).insert(
            k_gps_version(),
            "2.2.0.0"@,
        ).insert(k_gps_alt(), "0/10000"@)
    } else {
        doc
    }
}

/// The four property names are pairwise distinct.
pub proof fn lemma_gps_keys_distinct()
    ensures
        k_gps_lat() != k_gps_lon(),
        k_gps_lat() != k_gps_version(),
        k_gps_lat() != k_gps_alt(),
        k_gps_lon() != k_gps_version(),
        k_gps_lon() != k_gps_alt(),
        k_gps_version() != k_gps_alt(),
{
    reveal_strlit("GPSLatitude");
    reveal_strlit("GPSLongitude");
    reveal_strlit("GPSVersionID");
    reveal_strlit("GPSAltitude");
    assert(k_gps_lat().len() == 11);
    assert(k_gps_lon().len() == 12);
    assert(k_gps_version().len() == 12);
    assert(k_gps_alt().len() == 11);
    assert(k_gps_lat()[3] == 'L' && k_gps_alt()[3] == 'A');
    assert(k_gps_lon()[3] == 'L' && k_gps_version()[3] == 'V');
}

/// Whether a fetched property value counts as an existing geotag: it
/// is present and non-empty.
pub fn has_nonempty(v: &Option<String>) -> (r: bool)
    ensures
        r == match v {
            Some(s) => s@.len() > 0,
            None => false,
        },
{
    match v {
        Some(s) => !s.as_str().is_empty(),
        None => false,
    }
}

/// Decides whether coordinates are written: the caller passes whether
/// the store already holds a non-empty latitude or longitude property.
pub fn should_write(has_lat: bool, has_lon: bool, overwrite: bool) -> (r: bool)
    ensures
        r == (overwrite || !(has_lat || has_lon)),
{
    overwrite || !(has_lat || has_lon)
}

/// The decision over the store model: `should_write`, fed the two
/// presence facts of a store, answers exactly `update_writes`.
pub proof fn lemma_should_write_models_update(
    doc: Map<Seq<char>, Seq<char>>,
    has_lat: bool,
    has_lon: bool,
    overwrite: bool,
)
    requires
        has_lat == (doc.contains_key(k_gps_lat()) && doc[k_gps_lat()].len() > 0),
        has_lon == (doc.contains_key(k_gps_lon()) && doc[k_gps_lon()].len() > 0),
    ensures
        (overwrite || !(has_lat || has_lon)) == update_writes(doc, overwrite),
{
}

/// The four properties one write sets, in order: latitude and longitude
/// from the source, then the constant version and altitude values.
pub fn gps_properties(lat: &str, lon: &str) -> (r: Vec<(String, String)>)
    ensures
        r@.len() == 4,
        r@[0].0@ == k_gps_lat() && r@[0].1@ == lat@,
        r@[1].0@ == k_gps_lon() && r@[1].1@ == lon@,
        r@[2].0@ == k_gps_version() && r@[2].1@ == "2.2.0.0"@,
        r@[3].0@ == k_gps_alt() && r@[3].1@ == "0/10000"@,
{
    let mut r: Vec<(String, String)> = Vec::new();
    r.push((String::from_str("GPSLatitude"), String::from_str(lat)));
    r.push((String::from_str("GPSLongitude"), String::from_str(lon)));
    r.push((String::from_str("GPSVersionID"), String::from_str("2.2.0.0")));
    r.push((String::from_str("GPSAltitude"), String::from_str("0/10000")));
    r
}

/// Updating twice without `overwrite` writes once and then skips: the
/// first call on an untagged store writes the coordinates, the second
/// call finds them, changes nothing and reports a skip.
pub proof fn lemma_update_idempotent(doc: Map<Seq<char>, Seq<char>>, lat: Seq<char>, lon: Seq<char>)
    requires
        !doc_is_tagged(doc),
        lat.len() > 0,
        lon.len() > 0,
    ensures
        update_writes(doc, false),
        doc_is_tagged(updated_doc(doc, lat, lon, false)),
        !update_writes(updated_doc(doc, lat, lon, false), false),
        updated_doc(updated_doc(doc, lat, lon, false), lat, lon, false) == updated_doc(
            doc,
            lat,
            lon,
            false,
        ),
{
    lemma_gps_keys_distinct();
    let doc1 = updated_doc(doc, lat, lon, false);
    assert(doc1[k_gps_lat()] == lat);
}

/// Under `overwrite` a tagged store is written after all: what a
/// skipping call left alone is replaced by the source's current
/// values, alongside the constant version and altitude properties.
pub proof fn lemma_update_overwrite(doc: Map<Seq<char>, Seq<char>>, lat: Seq<char>, lon: Seq<char>)
    requires
        doc_is_tagged(doc),
    ensures
        !update_writes(doc, false),
        update_writes(doc, true),
        updated_doc(doc, lat, lon, true).contains_key(k_gps_lat()),
        updated_doc(doc, lat, lon, true).contains_key(k_gps_lon()),
        updated_doc(doc, lat, lon, true)[k_gps_lat()] == lat,
        updated_doc(doc, lat, lon, true)[k_gps_lon()] == lon,
        updated_doc(doc, lat, lon, true)[k_gps_version()] == "2.2.0.0"@,
        updated_doc(doc, lat, lon, true)[k_gps_alt()] == "0/10000"@,
{
    lemma_gps_keys_distinct();
}

} // verus!
