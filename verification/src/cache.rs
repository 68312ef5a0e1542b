//! Cache layout: canonical URLs, shard digests, and cache entry paths.
//!
//! Built wheels live under the `built-wheels` bucket, partitioned by a shard
//! that encodes the sdist's provenance: `url/<digest>` for direct archive
//! URLs, `index/<digest>` for registry-backed sdists, and `git/<digest>` for
//! Git sdists (whose leaf is the resolved commit). The digest is a hex-coded
//! seed-free hash of the canonicalized URL. All paths here are relative to
//! the cache root; the driver joins them onto it.

use vstd::prelude::*;
use crate::text::{find_spec, lemma_concat_cancel, lower_spec, push_all, subvec, to_lower};

verus! {

/// A URL after canonicalization: the scheme part (up to the first colon) is
/// lowercased, one trailing slash is trimmed, and a trailing `.git` is
/// trimmed. Used as the stable identity for locking and digesting.
pub open spec fn canon_spec(s: Seq<u8>) -> Seq<u8> {
    let t = lower_scheme(s);
    let u = trim_slash(t);
    trim_git(u)
}

/// Lowercase the bytes before the first colon.
pub open spec fn lower_scheme(s: Seq<u8>) -> Seq<u8> {
    let i = find_spec(s, 0x3a);
    if i < 0 {
        s
    } else {
        lower_spec(s.subrange(0, i)) + s.subrange(i, s.len() as int)
    }
}

/// Drop one trailing `/`.
pub open spec fn trim_slash(s: Seq<u8>) -> Seq<u8> {
    if s.len() > 0 && s[s.len() - 1] == 0x2f {
        s.subrange(0, s.len() - 1)
    } else {
        s
    }
}

/// The bytes of `.git`.
pub open spec fn git_suffix() -> Seq<u8> {
    seq![0x2eu8, 0x67u8, 0x69u8, 0x74u8]
}

/// Drop one trailing `.git`.
pub open spec fn trim_git(s: Seq<u8>) -> Seq<u8> {
    if s.len() >= 4 && s.subrange(s.len() - 4, s.len() as int) == git_suffix() {
        s.subrange(0, s.len() - 4)
    } else {
        s
    }
}

/// Canonicalize a URL.
pub fn canonical_url(url: &Vec<u8>) -> (r: Vec<u8>)
    ensures
        r@ == canon_spec(url@),
{
    let t = match crate::text::find_byte(url, 0x3a) {
        Some(i) => {
            proof {
                crate::text::lemma_find_spec(url@, 0x3a);
            }
            let head = subvec(url, 0, i);
            let mut low = to_lower(&head);
            let tail = subvec(url, i, url.len());
            push_all(&mut low, &tail);
            low
        },
        None => url.clone(),
    };
    let u = if t.len() > 0 && t[t.len() - 1] == 0x2f {
        subvec(&t, 0, t.len() - 1)
    } else {
        let c = t.clone();
        proof {
            assert(c@ == trim_slash(t@));
        }
        c
    };
    proof {
        assert(u@ == trim_slash(t@));
    }
    let mut gs: Vec<u8> = Vec::new();
    gs.push(0x2e);
    gs.push(0x67);
    gs.push(0x69);
    gs.push(0x74);
    proof {
        assert(gs@ =~= git_suffix());
    }
    if crate::text::has_suffix(&u, &gs) {
        subvec(&u, 0, u.len() - 4)
    } else {
        u
    }
}

/// The 64-bit digest of a byte string, as `fxhash` computes it. A function
/// of the bytes alone: seed-free, so it is stable across runs and
/// processes. (It reads words in native byte order, so machines of
/// different endianness — which cannot share one cache directory anyway —
/// digest differently.)
pub uninterp spec fn fx_digest64(s: Seq<u8>) -> u64;

/// Relies on `fxhash::hash64`, which hashes with fixed constants and no
/// per-process seed: its result depends on the bytes alone (in native byte
/// order).
#[verifier::external_body]
fn fx_hash64(v: &Vec<u8>) -> (r: u64)
    ensures
        r == fx_digest64(v@),
{
    fxhash::hash64(v.as_slice())
}

/// The hex digit for a nibble.
pub open spec fn hex_digit(n: u8) -> u8 {
    if n < 10 {
        (0x30 + n) as u8
    } else {
        (0x57 + n) as u8
    }
}

/// The `i`-th nibble of `x`, most significant first.
pub open spec fn nibble(x: u64, i: int) -> u8 {
    ((x >> (((15 - i) * 4) as u64)) & 0xf) as u8
}

/// The 16-digit lowercase hex form of `x`.
pub open spec fn hex64(x: u64) -> Seq<u8> {
    Seq::new(16, |i: int| hex_digit(nibble(x, i)))
}

/// Hex-encode a 64-bit value.
pub fn hex64_bytes(x: u64) -> (r: Vec<u8>)
    ensures
        r@ == hex64(x),
{
    let mut r: Vec<u8> = Vec::new();
    let mut i: usize = 0;
    while i < 16
        invariant
            i <= 16,
            r@.len() == i,
            forall|j: int| 0 <= j < i ==> r@[j] == hex_digit(nibble(x, j)),
        decreases 16 - i,
    {
        let sh: u64 = ((15 - i) * 4) as u64;
        let nib: u8 = ((x >> sh) & 0xf) as u8;
        proof {
            assert((x >> sh) & 0xf < 16) by (bit_vector);
        }
        if nib < 10 {
            r.push(0x30 + nib);
        } else {
            r.push(0x57 + nib);
        }
        i += 1;
    }
    proof {
        assert(r@ =~= hex64(x));
    }
    r
}

/// The digest used in shard names: hex of the hash of the canonical URL.
pub open spec fn url_digest_spec(u: Seq<u8>) -> Seq<u8> {
    hex64(fx_digest64(canon_spec(u)))
}

/// Digest a URL for use in a shard or lock name.
pub fn url_digest(url: &Vec<u8>) -> (r: Vec<u8>)
    ensures
        r@ == url_digest_spec(url@),
{
    let c = canonical_url(url);
    let h = fx_hash64(&c);
    hex64_bytes(h)
}

/// Digest a byte string without canonicalization, for identifiers that are
/// not URLs (a local path).
pub fn path_digest(v: &Vec<u8>) -> (r: Vec<u8>)
    ensures
        r@ == hex64(fx_digest64(v@)),
{
    let h = fx_hash64(v);
    hex64_bytes(h)
}

/// The provenance shard for a built wheel.
#[derive(Debug)]
pub enum WheelCache {
    /// A direct archive URL.
    Url(Vec<u8>),
    /// A registry index URL.
    Index(Vec<u8>),
    /// A Git repository URL.
    Git(Vec<u8>),
}

/// The bytes of `url/`.
pub open spec fn lit_url_shard() -> Seq<u8> {
    seq![0x75u8, 0x72u8, 0x6cu8, 0x2fu8]
}

/// The bytes of `index/`.
pub open spec fn lit_index_shard() -> Seq<u8> {
    seq![0x69u8, 0x6eu8, 0x64u8, 0x65u8, 0x78u8, 0x2fu8]
}

/// The bytes of `git/`.
pub open spec fn lit_git_shard() -> Seq<u8> {
    seq![0x67u8, 0x69u8, 0x74u8, 0x2fu8]
}

/// The shard directory for each provenance.
pub open spec fn wheel_dir_spec(w: WheelCache) -> Seq<u8> {
    match w {
        WheelCache::Url(u) => lit_url_shard() + url_digest_spec(u@),
        WheelCache::Index(u) => lit_index_shard() + url_digest_spec(u@),
        WheelCache::Git(u) => lit_git_shard() + url_digest_spec(u@),
    }
}

/// The leaf directory for one sdist: the shard plus the sdist filename (or,
/// for Git, the resolved commit).
pub open spec fn built_wheel_dir_spec(w: WheelCache, leaf: Seq<u8>) -> Seq<u8> {
    wheel_dir_spec(w) + seq![0x2fu8] + leaf
}

impl WheelCache {
    /// The relative directory for `leaf` under this shard.
    pub fn built_wheel_dir(&self, leaf: &Vec<u8>) -> (r: Vec<u8>)
        ensures
            r@ == built_wheel_dir_spec(*self, leaf@),
    {
        let mut out: Vec<u8> = Vec::new();
        match self {
            WheelCache::Url(u) => {
                out.push(0x75);
                out.push(0x72);
                out.push(0x6c);
                out.push(0x2f);
                proof {
                    assert(out@ =~= lit_url_shard());
                }
                let d = url_digest(u);
                push_all(&mut out, &d);
            },
            WheelCache::Index(u) => {
                out.push(0x69);
                out.push(0x6e);
                out.push(0x64);
                out.push(0x65);
                out.push(0x78);
                out.push(0x2f);
                proof {
                    assert(out@ =~= lit_index_shard());
                }
                let d = url_digest(u);
                push_all(&mut out, &d);
            },
            WheelCache::Git(u) => {
                out.push(0x67);
                out.push(0x69);
                out.push(0x74);
                out.push(0x2f);
                proof {
                    assert(out@ =~= lit_git_shard());
                }
                let d = url_digest(u);
                push_all(&mut out, &d);
            },
        }
        out.push(0x2f);
        push_all(&mut out, leaf);
        proof {
            assert(out@ =~= built_wheel_dir_spec(*self, leaf@));
        }
        out
    }
}

/// A cache entry: the leaf directory holding built wheels, and the sidecar
/// file name inside it.
#[derive(Debug)]
pub struct CacheEntry {
    pub dir: Vec<u8>,
    pub file: Vec<u8>,
}

impl CacheEntry {
    /// The path of the sidecar file: `dir/file`.
    pub fn path(&self) -> (r: Vec<u8>)
        ensures
            r@ == self.dir@ + seq![0x2fu8] + self.file@,
    {
        let mut out = self.dir.clone();
        out.push(0x2f);
        push_all(&mut out, &self.file);
        proof {
            assert(out@ =~= self.dir@ + seq![0x2fu8] + self.file@);
        }
        out
    }
}

/// The bytes of `built-wheels/`.
pub open spec fn lit_built_wheels() -> Seq<u8> {
    seq![0x62u8, 0x75u8, 0x69u8, 0x6cu8, 0x74u8, 0x2du8, 0x77u8, 0x68u8, 0x65u8, 0x65u8, 0x6cu8,
        0x73u8, 0x2fu8]
}

/// The bytes of `metadata.json`.
pub open spec fn lit_metadata_json() -> Seq<u8> {
    seq![0x6du8, 0x65u8, 0x74u8, 0x61u8, 0x64u8, 0x61u8, 0x74u8, 0x61u8, 0x2eu8, 0x6au8, 0x73u8,
        0x6fu8, 0x6eu8]
}

/// The sidecar entry for one sdist, relative to the cache root:
/// `built-wheels/<shard>/<leaf>` with file `metadata.json`.
pub open spec fn cache_entry_spec(w: WheelCache, leaf: Seq<u8>) -> Seq<u8> {
    lit_built_wheels() + built_wheel_dir_spec(w, leaf)
}

/// Build the cache entry for one sdist.
pub fn built_wheels_entry(shard: &WheelCache, leaf: &Vec<u8>) -> (r: CacheEntry)
    ensures
        r.dir@ == cache_entry_spec(*shard, leaf@),
        r.file@ == lit_metadata_json(),
{
    let mut dir: Vec<u8> = Vec::new();
    dir.push(0x62);
    dir.push(0x75);
    dir.push(0x69);
    dir.push(0x6c);
    dir.push(0x74);
    dir.push(0x2d);
    dir.push(0x77);
    dir.push(0x68);
    dir.push(0x65);
    dir.push(0x65);
    dir.push(0x6c);
    dir.push(0x73);
    dir.push(0x2f);
    proof {
        assert(dir@ =~= lit_built_wheels());
    }
    let rel = shard.built_wheel_dir(leaf);
    push_all(&mut dir, &rel);
    let mut file: Vec<u8> = Vec::new();
    file.push(0x6d);
    file.push(0x65);
    file.push(0x74);
    file.push(0x61);
    file.push(0x64);
    file.push(0x61);
    file.push(0x74);
    file.push(0x61);
    file.push(0x2e);
    file.push(0x6a);
    file.push(0x73);
    file.push(0x6f);
    file.push(0x6e);
    proof {
        assert(file@ =~= lit_metadata_json());
    }
    CacheEntry { dir, file }
}

/// The bytes of `git/locks/`.
pub open spec fn lit_git_locks() -> Seq<u8> {
    seq![0x67u8, 0x69u8, 0x74u8, 0x2fu8, 0x6cu8, 0x6fu8, 0x63u8, 0x6bu8, 0x73u8, 0x2fu8]
}

/// The per-URL lock file path, relative to the cache root.
pub open spec fn git_lock_path_spec(u: Seq<u8>) -> Seq<u8> {
    lit_git_locks() + url_digest_spec(u)
}

/// The lock file guarding the Git checkout for `url`.
pub fn git_lock_path(url: &Vec<u8>) -> (r: Vec<u8>)
    ensures
        r@ == git_lock_path_spec(url@),
{
    let mut out: Vec<u8> = Vec::new();
    out.push(0x67);
    out.push(0x69);
    out.push(0x74);
    out.push(0x2f);
    out.push(0x6c);
    out.push(0x6f);
    out.push(0x63);
    out.push(0x6b);
    out.push(0x73);
    out.push(0x2f);
    proof {
        assert(out@ =~= lit_git_locks());
    }
    let d = url_digest(url);
    push_all(&mut out, &d);
    out
}

/// Git cache keys are stable in the resolved commit: for one URL, two
/// resolved commits of equal length share a cache directory exactly when
/// they are the same commit.
pub proof fn lemma_git_key_stability(u: Vec<u8>, sha1: Seq<u8>, sha2: Seq<u8>)
    requires
        sha1.len() == sha2.len(),
    ensures
        cache_entry_spec(WheelCache::Git(u), sha1) == cache_entry_spec(WheelCache::Git(u), sha2)
            <==> sha1 == sha2,
{
    let w = WheelCache::Git(u);
    let prefix = lit_built_wheels() + (wheel_dir_spec(w) + seq![0x2fu8]);
    assert(cache_entry_spec(w, sha1) =~= prefix + sha1);
    assert(cache_entry_spec(w, sha2) =~= prefix + sha2);
    if cache_entry_spec(w, sha1) == cache_entry_spec(w, sha2) {
        lemma_concat_cancel(prefix, sha1, prefix, sha2);
    }
}

} // verus!
