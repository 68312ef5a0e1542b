use sdist_cache::codec::{
    deserialize_envelope, deserialize_metadata21s, reserialize_metadata21s,
    round_trip_metadata21s, serialize_envelope, serialize_metadata21s,
};
use sdist_cache::filename::WheelFilename;
use sdist_cache::metadata::{DiskFilenameAndMetadata, Metadata21, Metadata21s, PackageName};

fn entry_for(filename: &str, disk: &str, name: &str, version: &str) -> (WheelFilename, DiskFilenameAndMetadata) {
    let key = WheelFilename::parse(&filename.as_bytes().to_vec()).expect("valid filename");
    let value = DiskFilenameAndMetadata {
        disk_filename: disk.as_bytes().to_vec(),
        metadata: Metadata21 {
            name: PackageName::new(&name.as_bytes().to_vec()),
            version: version.as_bytes().to_vec(),
        },
    };
    (key, value)
}

fn sample_map() -> Metadata21s {
    let mut m = Metadata21s::new();
    let (k1, v1) = entry_for("a-1-py3-none-any.whl", "A-1-py3-none-any.whl", "a", "1");
    let (k2, v2) = entry_for("a-1-py2-none-linux.whl", "a-1-py2-none-linux.whl", "a", "1");
    m.insert(k1, v1);
    m.insert(k2, v2);
    m
}

#[test]
fn serialize_empty_map() {
    let m = Metadata21s::new();
    assert_eq!(serialize_metadata21s(&m), b"{}".to_vec());
}

#[test]
fn serialize_one_entry_exact_bytes() {
    let mut m = Metadata21s::new();
    let (k, v) = entry_for("a-1-py3-none-any.whl", "a-1-py3-none-any.whl", "a", "1");
    m.insert(k, v);
    let expected = "{\"a-1-py3-none-any.whl\":{\"disk_filename\":\"a-1-py3-none-any.whl\",\"metadata\":{\"name\":\"a\",\"version\":\"1\"}}}";
    assert_eq!(serialize_metadata21s(&m), expected.as_bytes().to_vec());
}

#[test]
fn round_trip_is_byte_stable() {
    let m = sample_map();
    let b1 = serialize_metadata21s(&m);
    let m2 = deserialize_metadata21s(&b1).expect("own output parses");
    let b2 = serialize_metadata21s(&m2);
    assert_eq!(b1, b2);
    assert_eq!(m2.entries.len(), 2);
    assert_eq!(reserialize_metadata21s(&b1), Some(b1.clone()));
    let (c1, c2) = round_trip_metadata21s(&m);
    assert_eq!(c1, b1);
    assert_eq!(c2, b1);
}

#[test]
fn deserialize_rejects_noncanonical_bytes() {
    assert!(deserialize_metadata21s(&b"".to_vec()).is_none());
    assert!(deserialize_metadata21s(&b"{ }".to_vec()).is_none());
    assert!(deserialize_metadata21s(&b"[]".to_vec()).is_none());
    assert!(deserialize_metadata21s(&b"{\"nokey\":1}".to_vec()).is_none());
    // trailing garbage
    let mut b = serialize_metadata21s(&sample_map());
    b.push(b' ');
    assert!(deserialize_metadata21s(&b).is_none());
}

#[test]
fn deserialize_rejects_duplicate_keys() {
    let one = "{\"a-1-py3-none-any.whl\":{\"disk_filename\":\"x.whl\",\"metadata\":{\"name\":\"a\",\"version\":\"1\"}},\"a-1-py3-none-any.whl\":{\"disk_filename\":\"y.whl\",\"metadata\":{\"name\":\"a\",\"version\":\"1\"}}}";
    assert!(deserialize_metadata21s(&one.as_bytes().to_vec()).is_none());
}

#[test]
fn envelope_round_trip_preserves_policy() {
    let m = sample_map();
    let policy = b"max-age=3600, etag W".to_vec();
    let b = serialize_envelope(&policy, &m);
    let (p2, m2) = deserialize_envelope(&b).expect("own output parses");
    assert_eq!(p2, policy);
    assert_eq!(serialize_metadata21s(&m2), serialize_metadata21s(&m));
    assert_eq!(serialize_envelope(&p2, &m2), b);
}

#[test]
fn envelope_rejects_bare_map() {
    let m = sample_map();
    let bare = serialize_metadata21s(&m);
    assert!(deserialize_envelope(&bare).is_none());
}
