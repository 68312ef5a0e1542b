use sdist_cache::filename::{Tags, WheelFilename};
use sdist_cache::metadata::{Metadata21, PackageName};

fn parse(s: &str) -> Option<WheelFilename> {
    WheelFilename::parse(&s.as_bytes().to_vec())
}

#[test]
fn parse_simple_wheel_filename() {
    let f = parse("example_pkg-1.0-py3-none-any.whl").expect("well-formed");
    assert_eq!(f.raw, b"example_pkg-1.0-py3-none-any.whl".to_vec());
    assert_eq!(f.name, b"example_pkg".to_vec());
    assert_eq!(f.version, b"1.0".to_vec());
    assert_eq!(f.python_tag, b"py3".to_vec());
    assert_eq!(f.abi_tag, b"none".to_vec());
    assert_eq!(f.platform_tag, b"any".to_vec());
}

#[test]
fn parse_rejects_bad_filenames() {
    assert!(parse("example_pkg-1.0-py3-none-any.zip").is_none());
    assert!(parse("example_pkg-1.0-py3-none.whl").is_none());
    assert!(parse("example_pkg-1.0-py3-none-linux-x86.whl").is_none());
    assert!(parse("example_pkg-1.0-py3--any.whl").is_none());
    assert!(parse("example pkg-1.0-py3-none-any.whl").is_none());
    assert!(parse(".whl").is_none());
    assert!(parse("").is_none());
}

#[test]
fn compatibility_intersects_dotted_tags() {
    let f = parse("pkg-2.1-py2.py3-none-manylinux1_x86_64.macosx_10_9.whl").unwrap();
    let mut tags = Tags::new();
    tags.push(b"py3".to_vec(), b"none".to_vec(), b"macosx_10_9".to_vec());
    assert!(f.is_compatible(&tags));

    let mut other = Tags::new();
    other.push(b"py3".to_vec(), b"abi3".to_vec(), b"macosx_10_9".to_vec());
    other.push(b"py4".to_vec(), b"none".to_vec(), b"any".to_vec());
    assert!(!f.is_compatible(&other));

    assert!(!f.is_compatible(&Tags::new()));
}

#[test]
fn package_name_normalization() {
    let n = PackageName::new(&b"Example._-Pkg".to_vec());
    assert_eq!(n.bytes, b"example-pkg".to_vec());
    let again = PackageName::new(&n.bytes);
    assert_eq!(again.bytes, n.bytes);
    let simple = PackageName::new(&b"requests".to_vec());
    assert_eq!(simple.bytes, b"requests".to_vec());
}

#[test]
fn metadata_parse_reads_name_and_version() {
    let body = b"Metadata-Version: 2.1\nName: Example.Pkg\nVersion: 1.0\n\nlong description".to_vec();
    let m = Metadata21::parse(&body).expect("both headers present");
    assert_eq!(m.name.bytes, b"example-pkg".to_vec());
    assert_eq!(m.version, b"1.0".to_vec());
}

#[test]
fn metadata_parse_requires_both_headers() {
    assert!(Metadata21::parse(&b"Name: pkg\n".to_vec()).is_none());
    assert!(Metadata21::parse(&b"Version: 1.0\n".to_vec()).is_none());
    assert!(Metadata21::parse(&b"".to_vec()).is_none());
}

#[test]
fn metadata_parse_stops_at_the_blank_line() {
    // A header named in the body only does not count.
    let body_only = b"Version: 1.0\n\nName: smuggled\n".to_vec();
    assert!(Metadata21::parse(&body_only).is_none());
    // A body line cannot override the header block either.
    let both = b"Name: real\nVersion: 1.0\n\nName: smuggled\n".to_vec();
    let m = Metadata21::parse(&both).expect("headers are present");
    assert_eq!(m.name.bytes, b"real".to_vec());
}
