//! The cache-and-build coordinator's decisions.
//!
//! One `download_and_build` request is a strictly sequential flow: derive
//! the fetch plan from the sdist's provenance, consult the cache, decide
//! whether a build is needed, and decide what to persist afterwards. Every
//! decision and data transformation of that flow is a function here, with a
//! contract; the driver performs the I/O between them (the conditional HTTP
//! request, the Git fetch under the lock, the build subprocess, reading and
//! writing the sidecar) and feeds each outcome back in.

use vstd::prelude::*;
use crate::cache::{
    built_wheels_entry, cache_entry_spec, git_lock_path, git_lock_path_spec, CacheEntry,
    WheelCache,
};
use crate::codec::{
    deserialize_envelope, deserialize_metadata21s, ser_envelope, ser_map, serialize_envelope,
    serialize_metadata21s,
};
use crate::filename::{compatible, same_filename, Tags, WheelFilename};
use crate::metadata::{DiskFilenameAndMetadata, Metadata21, Metadata21s, PackageName};
use crate::source::{
    distribution_id, distribution_id_spec, fragment_base, fragment_subdir, last_segment,
    parse_url_ok, split_archive_url, split_git_url, strip_git_plus, url_filename, url_ok,
    SourceDist,
};
use crate::text::{json_safe, seq_contains, views};

verus! {

/// What went wrong with one sdist. Each variant localizes the failure to a
/// single step of the flow; the carried bytes are the human-readable cause.
#[derive(Debug)]
pub enum SourceDistError {
    /// The registry gave a file URL that does not parse.
    UrlParse(Vec<u8>),
    /// The Git fetch failed.
    Git(Vec<u8>),
    /// Building the HTTP request failed.
    Request(Vec<u8>),
    /// The HTTP client failed.
    Client(Vec<u8>),
    /// A cache read or write failed.
    Io(Vec<u8>),
    /// A cached sidecar did not parse.
    Serde,
    /// The build backend failed, or builds are disabled.
    Build(Vec<u8>),
    /// The built wheel's filename does not parse.
    WheelFilenameInvalid,
    /// The wheel's `METADATA` file is absent or malformed.
    Metadata,
    /// A Git build produced metadata whose name differs from the declared
    /// package name.
    NameMismatch { given: PackageName, metadata: PackageName },
    /// A blocking worker failed.
    Join(Vec<u8>),
}

/// The wheel handed back to the caller: its path (relative to the cache
/// root), parsed filename, and metadata.
#[derive(Debug)]
pub struct BuiltWheelMetadata {
    pub path: Vec<u8>,
    pub filename: WheelFilename,
    pub metadata: Metadata21,
}

/// `b` is the cached entry `(key, value)` materialized under `dir`.
pub open spec fn from_cached_spec(
    b: BuiltWheelMetadata,
    key: WheelFilename,
    value: DiskFilenameAndMetadata,
    dir: Seq<u8>,
) -> bool {
    &&& b.path@ == dir + seq![0x2fu8] + value.disk_filename@
    &&& same_filename(b.filename, key)
    &&& b.metadata.name.bytes@ == value.metadata.name.bytes@
    &&& b.metadata.version@ == value.metadata.version@
}

impl BuiltWheelMetadata {
    /// Materialize a cached entry: the wheel lives beside the sidecar under
    /// the entry's directory.
    pub fn from_cached(
        filename: &WheelFilename,
        cached: &DiskFilenameAndMetadata,
        cache_entry: &CacheEntry,
    ) -> (r: BuiltWheelMetadata)
        ensures
            from_cached_spec(r, *filename, *cached, cache_entry.dir@),
    {
        let mut path = cache_entry.dir.clone();
        path.push(0x2f);
        crate::text::push_all(&mut path, &cached.disk_filename);
        proof {
            assert(path@ =~= cache_entry.dir@ + seq![0x2fu8] + cached.disk_filename@);
        }
        BuiltWheelMetadata {
            path,
            filename: WheelFilename {
                raw: filename.raw.clone(),
                name: filename.name.clone(),
                version: filename.version.clone(),
                python_tag: filename.python_tag.clone(),
                abi_tag: filename.abi_tag.clone(),
                platform_tag: filename.platform_tag.clone(),
            },
            metadata: Metadata21 {
                name: PackageName { bytes: cached.metadata.name.bytes.clone() },
                version: cached.metadata.version.clone(),
            },
        }
    }
}

/// Some cached wheel is compatible with the target tags.
pub open spec fn has_compatible(m: Metadata21s, tags: Tags) -> bool {
    exists|i: int|
        0 <= i < m.entries@.len() && compatible((#[trigger] m.entries@[i]).key, tags)
}

/// The plan derived from an sdist's provenance: what to fetch and where its
/// cache entry lives. All paths are relative to the cache root.
#[derive(Debug)]
pub enum FetchPlan {
    /// Issue a conditional GET and consult the sidecar the client keeps.
    Http { url: Vec<u8>, filename: Vec<u8>, entry: CacheEntry, subdirectory: Option<Vec<u8>> },
    /// Take the per-URL lock, then fetch the repository.
    Git { fetch_url: Vec<u8>, lock_path: Vec<u8>, subdirectory: Option<Vec<u8>> },
    /// Build straight from the local tree into the leaf directory.
    Path { dir: Vec<u8> },
}

/// Derive the fetch plan for an sdist. Registry URLs are validated; the
/// other provenances cannot fail here.
pub fn request_plan(sdist: &SourceDist) -> (r: Result<FetchPlan, SourceDistError>)
    ensures
        match sdist {
            SourceDist::Registry { filename, url, index, .. } => {
                &&& (r is Err <==> !url_ok(url@))
                &&& (r matches Err(e) ==> e is UrlParse)
                &&& (r matches Ok(p) ==> p matches FetchPlan::Http {
                    url: u,
                    filename: f,
                    entry,
                    subdirectory,
                } && u@ == url@ && f@ == filename@ && entry.dir@ == cache_entry_spec(
                    WheelCache::Index(*index),
                    filename@,
                ) && entry.file@ == crate::cache::lit_metadata_json() && subdirectory is None)
            },
            SourceDist::DirectUrl { url, .. } => {
                &&& r matches Ok(p)
                &&& (r matches Ok(p) ==> p matches FetchPlan::Http {
                    url: u,
                    filename: f,
                    entry,
                    subdirectory,
                } && u@ == fragment_base(url@) && f@ == last_segment(fragment_base(url@))
                    && entry.dir@ == cache_entry_spec(
                    WheelCache::Url(u),
                    last_segment(fragment_base(url@)),
                ) && entry.file@ == crate::cache::lit_metadata_json() && (
                subdirectory matches Some(d) ==> fragment_subdir(url@) matches Some(e) && d@ == e)
                    && (subdirectory is None <==> fragment_subdir(url@) is None))
            },
            SourceDist::Git { url, .. } => {
                &&& r matches Ok(p)
                &&& (r matches Ok(p) ==> p matches FetchPlan::Git {
                    fetch_url,
                    lock_path,
                    subdirectory,
                } && fetch_url@ == strip_git_plus(fragment_base(url@)) && lock_path@
                    == git_lock_path_spec(url@) && (
                subdirectory matches Some(d) ==> fragment_subdir(url@) matches Some(e) && d@ == e)
                    && (subdirectory is None <==> fragment_subdir(url@) is None))
            },
            SourceDist::Path { name, path } => {
                &&& r matches Ok(p)
                &&& (r matches Ok(p) ==> p matches FetchPlan::Path { dir } && dir@
                    == crate::cache::lit_built_wheels() + distribution_id_spec(
                    name.bytes@,
                    path@,
                ))
            },
        },
{
    match sdist {
        SourceDist::Registry { filename, url, index, .. } => {
            if !parse_url_ok(url) {
                return Err(SourceDistError::UrlParse(url.clone()));
            }
            let shard = WheelCache::Index(index.clone());
            proof {
                assert(shard matches WheelCache::Index(u) && u@ == index@);
            }
            let entry = built_wheels_entry(&shard, filename);
            Ok(
                FetchPlan::Http {
                    url: url.clone(),
                    filename: filename.clone(),
                    entry,
                    subdirectory: None,
                },
            )
        },
        SourceDist::DirectUrl { url, .. } => {
            let (base, subdirectory) = split_archive_url(url);
            let filename = url_filename(&base);
            let shard = WheelCache::Url(base.clone());
            let entry = built_wheels_entry(&shard, &filename);
            Ok(FetchPlan::Http { url: base, filename, entry, subdirectory })
        },
        SourceDist::Git { url, .. } => {
            let (fetch_url, subdirectory) = split_git_url(url);
            let lock_path = git_lock_path(url);
            Ok(FetchPlan::Git { fetch_url, lock_path, subdirectory })
        },
        SourceDist::Path { name, path } => {
            let id = distribution_id(name, path);
            let mut dir: Vec<u8> = Vec::new();
            dir.push(0x62);
            dir.push(0x75);
            dir.push(0x69);
            dir.push(0x6c);
            dir.push(0x74);
            dir.push(0x2d);
            dir.push(0x77);
            dir.push(0x68);
            dir.push(0x65);
            dir.push(0x65);
            dir.push(0x6c);
            dir.push(0x73);
            dir.push(0x2f);
            proof {
                assert(dir@ =~= crate::cache::lit_built_wheels());
            }
            crate::text::push_all(&mut dir, &id);
            Ok(FetchPlan::Path { dir })
        },
    }
}

/// The bytes of `Building source distributions is disabled`.
pub open spec fn builds_disabled_msg() -> Seq<u8> {
    seq![0x42u8, 0x75u8, 0x69u8, 0x6cu8, 0x64u8, 0x69u8, 0x6eu8, 0x67u8, 0x20u8, 0x73u8, 0x6fu8, 0x75u8, 0x72u8, 0x63u8, 0x65u8, 0x20u8, 0x64u8, 0x69u8, 0x73u8, 0x74u8, 0x72u8, 0x69u8, 0x62u8, 0x75u8, 0x74u8, 0x69u8, 0x6fu8, 0x6eu8, 0x73u8, 0x20u8, 0x69u8, 0x73u8, 0x20u8, 0x64u8, 0x69u8, 0x73u8, 0x61u8, 0x62u8, 0x6cu8, 0x65u8, 0x64u8]
}

/// Builds disabled is a hard error before anything else happens: the error
/// is a `Build` whose cause reads `Building source distributions is
/// disabled`.
pub fn check_build_allowed(no_build: bool) -> (r: Result<(), SourceDistError>)
    ensures
        r is Err <==> no_build,
        r matches Err(e) ==> e matches SourceDistError::Build(msg) && msg@
            == builds_disabled_msg(),
{
    if no_build {
        let mut msg: Vec<u8> = Vec::new();
        msg.push(0x42);
        msg.push(0x75);
        msg.push(0x69);
        msg.push(0x6c);
        msg.push(0x64);
        msg.push(0x69);
        msg.push(0x6e);
        msg.push(0x67);
        msg.push(0x20);
        msg.push(0x73);
        msg.push(0x6f);
        msg.push(0x75);
        msg.push(0x72);
        msg.push(0x63);
        msg.push(0x65);
        msg.push(0x20);
        msg.push(0x64);
        msg.push(0x69);
        msg.push(0x73);
        msg.push(0x74);
        msg.push(0x72);
        msg.push(0x69);
        msg.push(0x62);
        msg.push(0x75);
        msg.push(0x74);
        msg.push(0x69);
        msg.push(0x6f);
        msg.push(0x6e);
        msg.push(0x73);
        msg.push(0x20);
        msg.push(0x69);
        msg.push(0x73);
        msg.push(0x20);
        msg.push(0x64);
        msg.push(0x69);
        msg.push(0x73);
        msg.push(0x61);
        msg.push(0x62);
        msg.push(0x6c);
        msg.push(0x65);
        msg.push(0x64);
        proof {
            assert(msg@ =~= builds_disabled_msg());
        }
        Err(SourceDistError::Build(msg))
    } else {
        Ok(())
    }
}

/// On a fresh HTTP body, the prior build artifacts for this sdist are
/// suspect: the leaf directory is cleared — exactly when it exists.
pub fn invalidate_on_fresh_body(dir_exists: bool) -> (r: bool)
    ensures
        r == dir_exists,
{
    dir_exists
}

/// The map persisted after a fresh-body build: exactly the one new entry.
pub fn fresh_build_result(
    key: WheelFilename,
    disk_filename: Vec<u8>,
    metadata: Metadata21,
) -> (r: Metadata21s)
    requires
        key.wf(),
        json_safe(disk_filename@),
        metadata.wf(),
    ensures
        r.wf(),
        r.entries@.len() == 1,
        r.entries@[0].key == key,
        r.entries@[0].value.disk_filename@ == disk_filename@,
        r.entries@[0].value.metadata == metadata,
{
    let mut m = Metadata21s::new();
    m.insert(key, DiskFilenameAndMetadata { disk_filename, metadata });
    m
}

/// What follows the conditional request: either a cached wheel compatible
/// with the target tags, or a rebuild.
#[derive(Debug)]
pub enum UrlFlowNext {
    /// Return this wheel; no build happens.
    Hit(BuiltWheelMetadata),
    /// No cached wheel fits: download again (uncached) and build.
    Rebuild,
}

/// Decide from the sidecar map the client returned. A cached wheel is
/// returned exactly when one is tag-compatible — the first such entry — and
/// only a miss leads to a build.
pub fn after_client_response(m: &Metadata21s, tags: &Tags, entry: &CacheEntry) -> (r:
    UrlFlowNext)
    requires
        m.wf(),
    ensures
        r is Hit <==> has_compatible(*m, *tags),
        r matches UrlFlowNext::Hit(b) ==> exists|i: int|
            0 <= i < m.entries@.len() && compatible((#[trigger] m.entries@[i]).key, *tags)
                && (forall|j: int| 0 <= j < i ==> !compatible((#[trigger] m.entries@[j]).key, *tags))
                && from_cached_spec(b, m.entries@[i].key, m.entries@[i].value, entry.dir@),
{
    match m.find_compatible(tags) {
        Some(i) => {
            let e = &m.entries[i];
            let b = BuiltWheelMetadata::from_cached(&e.key, &e.value, entry);
            proof {
                assert(compatible(m.entries@[i as int].key, *tags));
            }
            UrlFlowNext::Hit(b)
        },
        None => UrlFlowNext::Rebuild,
    }
}

/// Merge a stale-path rebuild into the existing sidecar envelope. The
/// client's cache policy is preserved byte for byte; every entry for a
/// different filename is kept; the new entry is present in the result. When
/// the envelope does not parse, nothing is written (`None`) — the build
/// result itself is still valid.
pub fn merge_stale_rebuild(
    envelope: &Vec<u8>,
    key: WheelFilename,
    disk_filename: Vec<u8>,
    metadata: Metadata21,
) -> (r: Option<Vec<u8>>)
    requires
        key.wf(),
        json_safe(disk_filename@),
        metadata.wf(),
    ensures
        r matches Some(w) ==> exists|policy: Seq<u8>, m: Metadata21s, m2: Metadata21s|
            {
                &&& json_safe(policy)
                &&& m.wf()
                &&& ser_envelope(policy, m) == envelope@
                &&& m2.wf()
                &&& w@ == ser_envelope(policy, m2)
                &&& m.has_key(key.raw@) ==> m2.entries@.len() == m.entries@.len()
                &&& !m.has_key(key.raw@) ==> m2.entries@.len() == m.entries@.len() + 1
                &&& exists|i: int|
                    0 <= i < m2.entries@.len() && (#[trigger] m2.entries@[i]).key == key
                        && m2.entries@[i].value.disk_filename@ == disk_filename@
                        && m2.entries@[i].value.metadata == metadata
                &&& forall|i: int|
                    0 <= i < m.entries@.len() && (#[trigger] m.entries@[i]).key.raw@ != key.raw@
                        ==> m2.entries@[i] == m.entries@[i]
            },
        forall|p2: Seq<u8>, m2: Metadata21s|
            crate::codec::envelope_at(envelope@, p2, m2) ==> r is Some,
        forall|p0: Seq<u8>, m0: Metadata21s|
            #[trigger] crate::codec::envelope_at(envelope@, p0, m0) ==> (r matches Some(w)
                && exists|m3: Metadata21s|
                {
                    &&& m3.wf()
                    &&& w@ == ser_envelope(p0, m3)
                    &&& m0.has_key(key.raw@) ==> m3.entries@.len() == m0.entries@.len()
                    &&& !m0.has_key(key.raw@) ==> m3.entries@.len() == m0.entries@.len() + 1
                    &&& exists|i: int|
                        0 <= i < m3.entries@.len() && (#[trigger] m3.entries@[i]).key == key
                            && m3.entries@[i].value.disk_filename@ == disk_filename@
                            && m3.entries@[i].value.metadata == metadata
                    &&& forall|i: int|
                        0 <= i < m0.entries@.len() && (#[trigger] m0.entries@[i]).key.raw@
                            != key.raw@ ==> crate::metadata::same_entry(
                            m3.entries@[i],
                            m0.entries@[i],
                        )
                }),
{
    match deserialize_envelope(envelope) {
        Some((policy, mut m)) => {
            let ghost m_pre = m;
            m.insert(key, DiskFilenameAndMetadata { disk_filename, metadata });
            let w = serialize_envelope(&policy, &m);
            proof {
                assert(json_safe(policy@) && m_pre.wf() && ser_envelope(policy@, m_pre)
                    == envelope@ && m.wf() && w@ == ser_envelope(policy@, m) && m.has_key(
                    key.raw@,
                ));
                assert forall|p0: Seq<u8>, m0: Metadata21s|
                    #[trigger] crate::codec::envelope_at(envelope@, p0, m0) implies (exists|
                    m3: Metadata21s,
                |
                    {
                        &&& m3.wf()
                        &&& w@ == ser_envelope(p0, m3)
                        &&& m0.has_key(key.raw@) ==> m3.entries@.len() == m0.entries@.len()
                        &&& !m0.has_key(key.raw@) ==> m3.entries@.len() == m0.entries@.len() + 1
                        &&& exists|i: int|
                            0 <= i < m3.entries@.len() && (#[trigger] m3.entries@[i]).key == key
                                && m3.entries@[i].value.disk_filename@ == disk_filename@
                                && m3.entries@[i].value.metadata == metadata
                        &&& forall|i: int|
                            0 <= i < m0.entries@.len() && (#[trigger] m0.entries@[i]).key.raw@
                                != key.raw@ ==> crate::metadata::same_entry(
                                m3.entries@[i],
                                m0.entries@[i],
                            )
                    }) by {
                    crate::codec::lemma_ser_envelope_inj(policy@, m_pre, p0, m0);
                    if m0.has_key(key.raw@) {
                        let i = choose|i: int|
                            0 <= i < m0.entries@.len() && (#[trigger] m0.entries@[i]).key.raw@
                                == key.raw@;
                        assert(m_pre.entries@[i].key.raw@ == key.raw@);
                        assert(m_pre.has_key(key.raw@));
                    }
                    if m_pre.has_key(key.raw@) {
                        let i = choose|i: int|
                            0 <= i < m_pre.entries@.len() && (
                            #[trigger] m_pre.entries@[i]).key.raw@ == key.raw@;
                        assert(m0.entries@[i].key.raw@ == key.raw@);
                        assert(m0.has_key(key.raw@));
                    }
                    assert forall|i: int|
                        0 <= i < m0.entries@.len() && (#[trigger] m0.entries@[i]).key.raw@
                            != key.raw@ implies crate::metadata::same_entry(
                        m.entries@[i],
                        m0.entries@[i],
                    ) by {
                        assert(m_pre.entries@[i].key.raw@ == m0.entries@[i].key.raw@);
                        assert(m.entries@[i] == m_pre.entries@[i]);
                    }
                    assert({
                        &&& m.wf()
                        &&& w@ == ser_envelope(p0, m)
                        &&& m0.has_key(key.raw@) ==> m.entries@.len() == m0.entries@.len()
                        &&& !m0.has_key(key.raw@) ==> m.entries@.len() == m0.entries@.len() + 1
                        &&& exists|i: int|
                            0 <= i < m.entries@.len() && (#[trigger] m.entries@[i]).key == key
                                && m.entries@[i].value.disk_filename@ == disk_filename@
                                && m.entries@[i].value.metadata == metadata
                        &&& forall|i: int|
                            0 <= i < m0.entries@.len() && (#[trigger] m0.entries@[i]).key.raw@
                                != key.raw@ ==> crate::metadata::same_entry(
                                m.entries@[i],
                                m0.entries@[i],
                            )
                    });
                }
            }
            Some(w)
        },
        None => None,
    }
}

/// What the Git branch does after reading (or failing to find) the sidecar.
#[derive(Debug)]
pub enum GitCached {
    /// A compatible wheel was already built for this commit.
    Hit(BuiltWheelMetadata),
    /// No compatible wheel: build, then merge into this map.
    Build(Metadata21s),
}

/// Decide from the sidecar bytes at the Git cache entry, if the file
/// exists. A parse failure is a `Serde` error; the first compatible entry
/// is returned without building — and whenever the file's map holds a
/// compatible entry, the decision is a hit; otherwise the existing map is
/// carried into the build step.
pub fn git_cached_decision(file: &Option<Vec<u8>>, tags: &Tags, entry: &CacheEntry) -> (r:
    Result<GitCached, SourceDistError>)
    ensures
        file is None ==> (r matches Ok(c) && (c matches GitCached::Build(m) && m.entries@.len()
            == 0)),
        r matches Err(e) ==> e is Serde && file is Some,
        r matches Ok(c) ==> match c {
            GitCached::Hit(b) => file matches Some(bytes) && exists|m: Metadata21s, i: int|
                {
                    &&& m.wf()
                    &&& ser_map(m) == bytes@
                    &&& 0 <= i < m.entries@.len()
                    &&& compatible((#[trigger] m.entries@[i]).key, *tags)
                    &&& forall|j: int|
                        0 <= j < i ==> !compatible((#[trigger] m.entries@[j]).key, *tags)
                    &&& from_cached_spec(b, m.entries@[i].key, m.entries@[i].value, entry.dir@)
                },
            GitCached::Build(m) => m.wf() && !has_compatible(m, *tags) && (
            file matches Some(bytes) ==> ser_map(m) == bytes@),
        },
        forall|m2: Metadata21s|
            (file matches Some(b) && m2.wf() && #[trigger] ser_map(m2) == b@) ==> r is Ok,
        file matches Some(b) ==> forall|m2: Metadata21s|
            (m2.wf() && #[trigger] ser_map(m2) == b@) ==> ((r matches Ok(c) && c is Hit)
                <==> has_compatible(m2, *tags)),
{
    match file {
        None => Ok(GitCached::Build(Metadata21s::new())),
        Some(bytes) => {
            match deserialize_metadata21s(bytes) {
                None => Err(SourceDistError::Serde),
                Some(m) => {
                    proof {
                        assert forall|m2: Metadata21s| m2.wf() && #[trigger] ser_map(m2)
                            == bytes@ implies has_compatible(m2, *tags) == has_compatible(
                            m,
                            *tags,
                        ) by {
                            crate::codec::lemma_ser_map_inj(m, m2);
                            if has_compatible(m, *tags) {
                                let i = choose|i: int|
                                    0 <= i < m.entries@.len() && compatible(
                                        (#[trigger] m.entries@[i]).key,
                                        *tags,
                                    );
                                crate::filename::lemma_same_filename_compatible(
                                    m.entries@[i].key,
                                    m2.entries@[i].key,
                                    *tags,
                                );
                            }
                            if has_compatible(m2, *tags) {
                                let i = choose|i: int|
                                    0 <= i < m2.entries@.len() && compatible(
                                        (#[trigger] m2.entries@[i]).key,
                                        *tags,
                                    );
                                crate::filename::lemma_same_filename_compatible(
                                    m.entries@[i].key,
                                    m2.entries@[i].key,
                                    *tags,
                                );
                            }
                        }
                    }
                    match m.find_compatible(tags) {
                        Some(i) => {
                            let e = &m.entries[i];
                            let b = BuiltWheelMetadata::from_cached(&e.key, &e.value, entry);
                            proof {
                                assert(m.wf() && ser_map(m) == bytes@ && compatible(
                                    m.entries@[i as int].key,
                                    *tags,
                                ));
                            }
                            Ok(GitCached::Hit(b))
                        },
                        None => Ok(GitCached::Build(m)),
                    }
                },
            }
        },
    }
}

/// After a Git build: enforce the name contract, then merge the new entry
/// and serialize the map for the sidecar. On a name mismatch nothing is
/// merged and nothing is handed back to persist.
pub fn git_after_build(
    metadatas: &mut Metadata21s,
    declared: &PackageName,
    key: WheelFilename,
    disk_filename: Vec<u8>,
    metadata: Metadata21,
    entry: &CacheEntry,
) -> (r: Result<(Vec<u8>, BuiltWheelMetadata), SourceDistError>)
    requires
        old(metadatas).wf(),
        key.wf(),
        json_safe(disk_filename@),
        metadata.wf(),
    ensures
        r is Err <==> metadata.name.bytes@ != declared.bytes@,
        r matches Err(e) ==> e matches SourceDistError::NameMismatch { given, metadata: md }
            && given.bytes@ == declared.bytes@ && md.bytes@ == metadata.name.bytes@
            && *final(metadatas) == *old(metadatas),
        r matches Ok((bytes, b)) ==> {
            &&& final(metadatas).wf()
            &&& bytes@ == ser_map(*final(metadatas))
            &&& old(metadatas).has_key(key.raw@)
                ==> final(metadatas).entries@.len() == old(metadatas).entries@.len()
            &&& !old(metadatas).has_key(key.raw@)
                ==> final(metadatas).entries@.len() == old(metadatas).entries@.len() + 1
            &&& exists|i: int|
                0 <= i < final(metadatas).entries@.len()
                    && (#[trigger] final(metadatas).entries@[i]).key == key
                    && final(metadatas).entries@[i].value.disk_filename@ == disk_filename@
                    && final(metadatas).entries@[i].value.metadata.name.bytes@
                    == metadata.name.bytes@
                    && final(metadatas).entries@[i].value.metadata.version@ == metadata.version@
            &&& forall|i: int|
                0 <= i < old(metadatas).entries@.len()
                    && (#[trigger] old(metadatas).entries@[i]).key.raw@ != key.raw@
                    ==> final(metadatas).entries@[i] == old(metadatas).entries@[i]
            &&& b.path@ == entry.dir@ + seq![0x2fu8] + disk_filename@
            &&& b.filename.raw@ == key.raw@
            &&& b.metadata.name.bytes@ == metadata.name.bytes@
            &&& b.metadata.version@ == metadata.version@
        },
{
    if !metadata.name.same_as(declared) {
        return Err(
            SourceDistError::NameMismatch {
                given: PackageName { bytes: declared.bytes.clone() },
                metadata: PackageName { bytes: metadata.name.bytes.clone() },
            },
        );
    }
    let value = DiskFilenameAndMetadata {
        disk_filename: disk_filename,
        metadata: Metadata21 {
            name: PackageName { bytes: metadata.name.bytes.clone() },
            version: metadata.version.clone(),
        },
    };
    let b = BuiltWheelMetadata::from_cached(&key, &value, entry);
    metadatas.insert(key, value);
    let bytes = serialize_metadata21s(metadatas);
    Ok((bytes, b))
}

/// The `*.dist-info/METADATA` member of a built wheel: the directory stem
/// is the normalized name and version.
pub open spec fn dist_info_path_spec(f: WheelFilename) -> Seq<u8> {
    f.name@ + seq![0x2du8] + f.version@ + lit_dist_info_metadata()
}

/// The bytes of `.dist-info/METADATA`.
pub open spec fn lit_dist_info_metadata() -> Seq<u8> {
    seq![0x2eu8, 0x64u8, 0x69u8, 0x73u8, 0x74u8, 0x2du8, 0x69u8, 0x6eu8, 0x66u8, 0x6fu8, 0x2fu8,
        0x4du8, 0x45u8, 0x54u8, 0x41u8, 0x44u8, 0x41u8, 0x54u8, 0x41u8]
}

/// Locate the `METADATA` member for `f` among the wheel's member names.
/// Found exactly when the expected `<name>-<version>.dist-info/METADATA`
/// path is among them.
pub fn find_dist_info_path(names: &Vec<Vec<u8>>, f: &WheelFilename) -> (r: Option<Vec<u8>>)
    ensures
        r matches Some(p) ==> p@ == dist_info_path_spec(*f),
        r is Some <==> seq_contains(views(names@), dist_info_path_spec(*f)),
{
    let mut expected = f.name.clone();
    expected.push(0x2d);
    crate::text::push_all(&mut expected, &f.version);
    let mut suffix: Vec<u8> = Vec::new();
    suffix.push(0x2e);
    suffix.push(0x64);
    suffix.push(0x69);
    suffix.push(0x73);
    suffix.push(0x74);
    suffix.push(0x2d);
    suffix.push(0x69);
    suffix.push(0x6e);
    suffix.push(0x66);
    suffix.push(0x6f);
    suffix.push(0x2f);
    suffix.push(0x4d);
    suffix.push(0x45);
    suffix.push(0x54);
    suffix.push(0x41);
    suffix.push(0x44);
    suffix.push(0x41);
    suffix.push(0x54);
    suffix.push(0x41);
    proof {
        assert(suffix@ =~= lit_dist_info_metadata());
    }
    crate::text::push_all(&mut expected, &suffix);
    proof {
        assert(expected@ =~= dist_info_path_spec(*f));
    }
    if crate::text::vec_contains(names, &expected) {
        Some(expected)
    } else {
        None
    }
}

/// Two requests for the same canonical Git URL contend on the same lock
/// file: their fetches serialize there. (Requests for URLs with different
/// digests take different locks and do not contend.)
pub proof fn lemma_git_lock_same_url(u1: Seq<u8>, u2: Seq<u8>)
    requires
        crate::cache::canon_spec(u1) == crate::cache::canon_spec(u2),
    ensures
        git_lock_path_spec(u1) == git_lock_path_spec(u2),
{
}

/// A compatible cached entry short-circuits the flow: the decision after
/// the conditional request is a hit, never a rebuild — so a second call
/// under unchanged tags performs no build.
pub proof fn lemma_cache_hit_skips_build(m: Metadata21s, tags: Tags, i: int)
    requires
        0 <= i < m.entries@.len(),
        compatible(m.entries@[i].key, tags),
    ensures
        has_compatible(m, tags),
{
}

} // verus!
