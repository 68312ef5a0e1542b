use sdist_cache::cache::{built_wheels_entry, git_lock_path, CacheEntry, WheelCache};
use sdist_cache::codec::{deserialize_envelope, serialize_envelope, serialize_metadata21s};
use sdist_cache::coordinator::{
    after_client_response, check_build_allowed, find_dist_info_path, fresh_build_result,
    git_after_build, git_cached_decision, invalidate_on_fresh_body, merge_stale_rebuild,
    request_plan, BuiltWheelMetadata, FetchPlan, GitCached, SourceDistError, UrlFlowNext,
};
use sdist_cache::filename::{Tags, WheelFilename};
use sdist_cache::metadata::{Metadata21, Metadata21s, PackageName};
use sdist_cache::source::{url_filename, SourceDist};

fn wheel(s: &str) -> WheelFilename {
    WheelFilename::parse(&s.as_bytes().to_vec()).expect("valid filename")
}

fn meta(name: &str, version: &str) -> Metadata21 {
    Metadata21 {
        name: PackageName::new(&name.as_bytes().to_vec()),
        version: version.as_bytes().to_vec(),
    }
}

fn linux_tags() -> Tags {
    let mut t = Tags::new();
    t.push(b"py3".to_vec(), b"none".to_vec(), b"linux".to_vec());
    t
}

fn mac_tags() -> Tags {
    let mut t = Tags::new();
    t.push(b"py3".to_vec(), b"none".to_vec(), b"macos".to_vec());
    t
}

fn entry() -> CacheEntry {
    let shard = WheelCache::Url(b"https://example.com/pkg-1.0.tar.gz".to_vec());
    built_wheels_entry(&shard, &b"pkg-1.0.tar.gz".to_vec())
}

#[test]
fn warm_cache_hit_returns_without_build() {
    // first call: fresh body builds one wheel and persists it
    let m = fresh_build_result(
        wheel("pkg-1.0-py3-none-linux.whl"),
        b"pkg-1.0-py3-none-linux.whl".to_vec(),
        meta("pkg", "1.0"),
    );
    // second call under the same tags: the client replays the sidecar
    match after_client_response(&m, &linux_tags(), &entry()) {
        UrlFlowNext::Hit(b) => {
            assert_eq!(b.filename.raw, b"pkg-1.0-py3-none-linux.whl".to_vec());
            let mut expected = entry().dir.clone();
            expected.push(b'/');
            expected.extend_from_slice(b"pkg-1.0-py3-none-linux.whl");
            assert_eq!(b.path, expected);
        }
        UrlFlowNext::Rebuild => panic!("compatible entry must be returned without a build"),
    }
}

#[test]
fn tag_miss_rebuilds_and_keeps_both_entries() {
    let m = fresh_build_result(
        wheel("pkg-1.0-py3-none-linux.whl"),
        b"pkg-1.0-py3-none-linux.whl".to_vec(),
        meta("pkg", "1.0"),
    );
    // second call under different tags: no compatible wheel, rebuild
    assert!(matches!(
        after_client_response(&m, &mac_tags(), &entry()),
        UrlFlowNext::Rebuild
    ));
    // the stale path merges the new build into the existing envelope
    let policy = b"etag:abc".to_vec();
    let env = serialize_envelope(&policy, &m);
    let merged = merge_stale_rebuild(
        &env,
        wheel("pkg-1.0-py3-none-macos.whl"),
        b"pkg-1.0-py3-none-macos.whl".to_vec(),
        meta("pkg", "1.0"),
    )
    .expect("envelope written by the client parses");
    let (p2, m2) = deserialize_envelope(&merged).unwrap();
    assert_eq!(p2, policy, "the cache policy is preserved, not reset");
    assert_eq!(m2.entries.len(), 2);
    assert!(m2.contains_key(&b"pkg-1.0-py3-none-linux.whl".to_vec()));
    assert!(m2.contains_key(&b"pkg-1.0-py3-none-macos.whl".to_vec()));
}

#[test]
fn merge_into_unparseable_envelope_is_skipped() {
    let r = merge_stale_rebuild(
        &b"not json".to_vec(),
        wheel("pkg-1.0-py3-none-any.whl"),
        b"pkg-1.0-py3-none-any.whl".to_vec(),
        meta("pkg", "1.0"),
    );
    assert!(r.is_none(), "persistence is best-effort on this path");
}

#[test]
fn fresh_body_invalidates_and_stores_exactly_one_entry() {
    assert!(invalidate_on_fresh_body(true));
    assert!(!invalidate_on_fresh_body(false));
    let m = fresh_build_result(
        wheel("pkg-2.0-py3-none-linux.whl"),
        b"pkg-2.0-py3-none-linux.whl".to_vec(),
        meta("pkg", "2.0"),
    );
    assert_eq!(m.entries.len(), 1);
    assert!(m.contains_key(&b"pkg-2.0-py3-none-linux.whl".to_vec()));
}

#[test]
fn git_cache_key_tracks_resolved_commit() {
    let url = b"https://github.com/x/y.git".to_vec();
    let sha1 = b"aaaaaaaaaaaaaaaaaaaaaaaaaaaaaaaaaaaaaaaa".to_vec();
    let sha2 = b"bbbbbbbbbbbbbbbbbbbbbbbbbbbbbbbbbbbbbbbb".to_vec();
    let e1 = built_wheels_entry(&WheelCache::Git(url.clone()), &sha1);
    let e1_again = built_wheels_entry(&WheelCache::Git(url.clone()), &sha1);
    let e2 = built_wheels_entry(&WheelCache::Git(url.clone()), &sha2);
    assert_eq!(e1.dir, e1_again.dir, "same commit shares the cache directory");
    assert_ne!(e1.dir, e2.dir, "different commits must not share it");
    assert!(e1.dir.starts_with(b"built-wheels/git/"));
}

#[test]
fn git_lock_is_stable_under_canonicalization() {
    let a = git_lock_path(&b"HTTPS://github.com/x/y.git".to_vec());
    let b = git_lock_path(&b"https://github.com/x/y".to_vec());
    assert_eq!(a, b, "one lock per canonical URL");
    let c = git_lock_path(&b"https://github.com/x/z".to_vec());
    assert_ne!(a, c);
    assert!(a.starts_with(b"git/locks/"));
}

#[test]
fn git_cached_decision_branches() {
    // no sidecar yet: build against an empty map
    match git_cached_decision(&None, &linux_tags(), &entry()).unwrap() {
        GitCached::Build(m) => assert_eq!(m.entries.len(), 0),
        GitCached::Hit(_) => panic!("nothing cached"),
    }
    // sidecar with a compatible wheel: hit, no build
    let m = fresh_build_result(
        wheel("pkg-1.0-py3-none-linux.whl"),
        b"pkg-1.0-py3-none-linux.whl".to_vec(),
        meta("pkg", "1.0"),
    );
    let bytes = serialize_metadata21s(&m);
    match git_cached_decision(&Some(bytes.clone()), &linux_tags(), &entry()).unwrap() {
        GitCached::Hit(b) => assert_eq!(b.filename.raw, b"pkg-1.0-py3-none-linux.whl".to_vec()),
        GitCached::Build(_) => panic!("compatible entry must be returned"),
    }
    // sidecar with only an incompatible wheel: carry the map into the build
    match git_cached_decision(&Some(bytes), &mac_tags(), &entry()).unwrap() {
        GitCached::Build(m2) => assert_eq!(m2.entries.len(), 1),
        GitCached::Hit(_) => panic!("no compatible entry"),
    }
    // garbage sidecar: a Serde error
    assert!(matches!(
        git_cached_decision(&Some(b"garbage".to_vec()), &linux_tags(), &entry()),
        Err(SourceDistError::Serde)
    ));
}

#[test]
fn git_name_mismatch_is_fatal_and_persists_nothing() {
    let mut m = Metadata21s::new();
    let declared = PackageName::new(&b"pkg".to_vec());
    let r = git_after_build(
        &mut m,
        &declared,
        wheel("other-1.0-py3-none-any.whl"),
        b"other-1.0-py3-none-any.whl".to_vec(),
        meta("other", "1.0"),
        &entry(),
    );
    match r {
        Err(SourceDistError::NameMismatch { given, metadata }) => {
            assert_eq!(given.bytes, b"pkg".to_vec());
            assert_eq!(metadata.bytes, b"other".to_vec());
        }
        _ => panic!("mismatch must fail with NameMismatch"),
    }
    assert_eq!(m.entries.len(), 0, "nothing is merged on mismatch");
}

#[test]
fn git_matching_name_persists_and_returns_the_wheel() {
    let mut m = Metadata21s::new();
    let declared = PackageName::new(&b"pkg".to_vec());
    let (bytes, b) = git_after_build(
        &mut m,
        &declared,
        wheel("pkg-1.0-py3-none-any.whl"),
        b"pkg-1.0-py3-none-any.whl".to_vec(),
        meta("pkg", "1.0"),
        &entry(),
    )
    .expect("names agree");
    assert_eq!(bytes, serialize_metadata21s(&m));
    assert_eq!(m.entries.len(), 1);
    assert_eq!(b.metadata.name.bytes, b"pkg".to_vec());
}

#[test]
fn builds_disabled_is_a_build_error_with_the_exact_message() {
    assert!(check_build_allowed(false).is_ok());
    match check_build_allowed(true) {
        Err(SourceDistError::Build(msg)) => {
            assert_eq!(msg, b"Building source distributions is disabled".to_vec());
        }
        _ => panic!("disabled builds fail with a Build error"),
    }
}

#[test]
fn cache_hit_returns_the_first_compatible_entry() {
    let mut m = fresh_build_result(
        wheel("pkg-1.0-py3-none-linux.whl"),
        b"pkg-1.0-py3-none-linux.whl".to_vec(),
        meta("pkg", "1.0"),
    );
    m.insert(
        wheel("pkg-1.0-py2.py3-none-linux.whl"),
        sdist_cache::metadata::DiskFilenameAndMetadata {
            disk_filename: b"pkg-1.0-py2.py3-none-linux.whl".to_vec(),
            metadata: meta("pkg", "1.0"),
        },
    );
    // Both entries are compatible; the first in map order is returned,
    // both times.
    for _ in 0..2 {
        match after_client_response(&m, &linux_tags(), &entry()) {
            UrlFlowNext::Hit(b) => {
                assert_eq!(b.filename.raw, b"pkg-1.0-py3-none-linux.whl".to_vec());
                assert_eq!(b.filename.python_tag, b"py3".to_vec());
            }
            UrlFlowNext::Rebuild => panic!("a compatible entry exists"),
        }
    }
}

#[test]
fn registry_plan_validates_the_url() {
    let bad = SourceDist::Registry {
        name: PackageName::new(&b"example".to_vec()),
        filename: b"example-1.0.tar.gz".to_vec(),
        url: b"not a url at all".to_vec(),
        index: b"https://pypi.org/simple".to_vec(),
    };
    assert!(matches!(
        request_plan(&bad),
        Err(SourceDistError::UrlParse(_))
    ));

    let good = SourceDist::Registry {
        name: PackageName::new(&b"example".to_vec()),
        filename: b"example-1.0.tar.gz".to_vec(),
        url: b"https://pypi.org/packages/example-1.0.tar.gz".to_vec(),
        index: b"https://pypi.org/simple".to_vec(),
    };
    match request_plan(&good).unwrap() {
        FetchPlan::Http { url, filename, entry, subdirectory } => {
            assert_eq!(url, b"https://pypi.org/packages/example-1.0.tar.gz".to_vec());
            assert_eq!(filename, b"example-1.0.tar.gz".to_vec());
            assert!(entry.dir.starts_with(b"built-wheels/index/"));
            assert!(entry.dir.ends_with(b"/example-1.0.tar.gz"));
            assert_eq!(entry.file, b"metadata.json".to_vec());
            assert!(subdirectory.is_none());
        }
        _ => panic!("registry sdists are HTTP-backed"),
    }
}

#[test]
fn direct_url_plan_splits_fragment_and_filename() {
    let sd = SourceDist::DirectUrl {
        name: PackageName::new(&b"foo".to_vec()),
        url: b"https://example.com/dl/foo-1.0.zip#subdirectory=src/inner".to_vec(),
    };
    match request_plan(&sd).unwrap() {
        FetchPlan::Http { url, filename, entry, subdirectory } => {
            assert_eq!(url, b"https://example.com/dl/foo-1.0.zip".to_vec());
            assert_eq!(filename, b"foo-1.0.zip".to_vec());
            assert!(entry.dir.starts_with(b"built-wheels/url/"));
            assert_eq!(subdirectory, Some(b"src/inner".to_vec()));
        }
        _ => panic!("direct URLs are HTTP-backed"),
    }
}

#[test]
fn git_plan_strips_scheme_prefix_and_locks() {
    let sd = SourceDist::Git {
        name: PackageName::new(&b"pkg".to_vec()),
        url: b"git+https://github.com/x/y.git#subdirectory=py".to_vec(),
    };
    match request_plan(&sd).unwrap() {
        FetchPlan::Git { fetch_url, lock_path, subdirectory } => {
            assert_eq!(fetch_url, b"https://github.com/x/y.git".to_vec());
            assert_eq!(
                lock_path,
                git_lock_path(&b"git+https://github.com/x/y.git#subdirectory=py".to_vec())
            );
            assert_eq!(subdirectory, Some(b"py".to_vec()));
        }
        _ => panic!("git sdists take the git branch"),
    }
}

#[test]
fn path_plan_is_stable_per_name_and_location() {
    let sd = SourceDist::Path {
        name: PackageName::new(&b"pkg".to_vec()),
        path: b"/home/user/src/pkg".to_vec(),
    };
    let d1 = match request_plan(&sd).unwrap() {
        FetchPlan::Path { dir } => dir,
        _ => panic!("path sdists build locally"),
    };
    let d2 = match request_plan(&sd).unwrap() {
        FetchPlan::Path { dir } => dir,
        _ => panic!("path sdists build locally"),
    };
    assert_eq!(d1, d2);
    assert!(d1.starts_with(b"built-wheels/pkg-"));
}

#[test]
fn dist_info_discovery() {
    let f = wheel("pkg-1.0-py3-none-any.whl");
    let names = vec![
        b"pkg/__init__.py".to_vec(),
        b"pkg-1.0.dist-info/METADATA".to_vec(),
        b"pkg-1.0.dist-info/RECORD".to_vec(),
    ];
    assert_eq!(
        find_dist_info_path(&names, &f),
        Some(b"pkg-1.0.dist-info/METADATA".to_vec())
    );
    let missing = vec![b"pkg/__init__.py".to_vec()];
    assert_eq!(find_dist_info_path(&missing, &f), None);
}

#[test]
fn url_filename_takes_the_last_segment() {
    assert_eq!(
        url_filename(&b"https://example.com/a/b/foo-1.0.zip".to_vec()),
        b"foo-1.0.zip".to_vec()
    );
}

#[test]
fn from_cached_joins_path() {
    let m = fresh_build_result(
        wheel("pkg-1.0-py3-none-linux.whl"),
        b"Pkg-1.0-py3-none-linux.whl".to_vec(),
        meta("pkg", "1.0"),
    );
    let e = entry();
    let b = BuiltWheelMetadata::from_cached(&m.entries[0].key, &m.entries[0].value, &e);
    let mut expected = e.dir.clone();
    expected.push(b'/');
    expected.extend_from_slice(b"Pkg-1.0-py3-none-linux.whl");
    assert_eq!(b.path, expected);
}
