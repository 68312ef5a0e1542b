//! Source distribution references and their locator arithmetic.
//!
//! A source distribution arrives from one of four provenances, each with its
//! own identity key: a registry file, a direct archive URL, a Git
//! repository, or a local path. Direct URLs may carry a
//! `#subdirectory=<path>` fragment; Git URLs may additionally carry a
//! `git+` scheme prefix.

use vstd::prelude::*;
use crate::metadata::PackageName;
use crate::text::{find_spec, split, split_spec, starts_with, subvec, views};

verus! {

/// A reference to a source distribution.
#[derive(Debug)]
pub enum SourceDist {
    /// An sdist served by a registry index.
    Registry { name: PackageName, filename: Vec<u8>, url: Vec<u8>, index: Vec<u8> },
    /// An sdist at a direct archive URL.
    DirectUrl { name: PackageName, url: Vec<u8> },
    /// An sdist built from a Git repository.
    Git { name: PackageName, url: Vec<u8> },
    /// An sdist on the local filesystem.
    Path { name: PackageName, path: Vec<u8> },
}

/// Whether a byte string parses as a URL. Relied on through
/// `url::Url::parse` below; a function of the bytes alone.
pub uninterp spec fn url_ok(s: Seq<u8>) -> bool;

/// Relies on `url::Url::parse`: whether the bytes, read as UTF-8, parse as
/// a URL depends on the bytes alone.
#[verifier::external_body]
pub(crate) fn parse_url_ok(s: &Vec<u8>) -> (r: bool)
    ensures
        r == url_ok(s@),
{
    match std::str::from_utf8(s.as_slice()) {
        Ok(t) => url::Url::parse(t).is_ok(),
        Err(_) => false,
    }
}

/// The URL before its fragment.
pub open spec fn fragment_base(s: Seq<u8>) -> Seq<u8> {
    let i = find_spec(s, 0x23);
    if i < 0 {
        s
    } else {
        s.subrange(0, i)
    }
}

/// The bytes of `subdirectory=`.
pub open spec fn lit_subdirectory() -> Seq<u8> {
    seq![0x73u8, 0x75u8, 0x62u8, 0x64u8, 0x69u8, 0x72u8, 0x65u8, 0x63u8, 0x74u8, 0x6fu8, 0x72u8,
        0x79u8, 0x3du8]
}

/// The subdirectory named by a `#subdirectory=<path>` fragment, if any.
pub open spec fn fragment_subdir(s: Seq<u8>) -> Option<Seq<u8>> {
    let i = find_spec(s, 0x23);
    if i < 0 {
        Option::None
    } else {
        let frag = s.subrange(i + 1, s.len() as int);
        if starts_with(frag, lit_subdirectory()) {
            Option::Some(frag.subrange(lit_subdirectory().len() as int, frag.len() as int))
        } else {
            Option::None
        }
    }
}

/// Split a direct archive URL into its base and optional subdirectory.
pub fn split_archive_url(url: &Vec<u8>) -> (r: (Vec<u8>, Option<Vec<u8>>))
    ensures
        r.0@ == fragment_base(url@),
        r.1 matches Some(d) ==> fragment_subdir(url@) matches Some(e) && d@ == e,
        r.1 is None <==> fragment_subdir(url@) is None,
{
    match crate::text::find_byte(url, 0x23) {
        None => (url.clone(), None),
        Some(i) => {
            proof {
                crate::text::lemma_find_spec(url@, 0x23);
            }
            let n = url.len();
            assert(i < n);
            let base = subvec(url, 0, i);
            let frag = subvec(url, i + 1, n);
            let mut key: Vec<u8> = Vec::new();
            key.push(0x73);
            key.push(0x75);
            key.push(0x62);
            key.push(0x64);
            key.push(0x69);
            key.push(0x72);
            key.push(0x65);
            key.push(0x63);
            key.push(0x74);
            key.push(0x6f);
            key.push(0x72);
            key.push(0x79);
            key.push(0x3d);
            proof {
                assert(key@ =~= lit_subdirectory());
            }
            if crate::text::has_prefix(&frag, &key) {
                let sub = subvec(&frag, key.len(), frag.len());
                (base, Some(sub))
            } else {
                (base, None)
            }
        },
    }
}

/// The last `/`-separated segment of a URL: its filename part.
pub open spec fn last_segment(s: Seq<u8>) -> Seq<u8> {
    let parts = split_spec(s, 0x2f);
    parts[parts.len() - 1]
}

/// The filename part of a URL.
pub fn url_filename(url: &Vec<u8>) -> (r: Vec<u8>)
    ensures
        r@ == last_segment(url@),
{
    let parts = split(url, 0x2f);
    let last = parts.len() - 1;
    let r = parts[last].clone();
    proof {
        assert(r@ == views(parts@)[last as int]);
    }
    r
}

/// The bytes of `git+`.
pub open spec fn lit_git_plus() -> Seq<u8> {
    seq![0x67u8, 0x69u8, 0x74u8, 0x2bu8]
}

/// A URL with a leading `git+` scheme prefix stripped.
pub open spec fn strip_git_plus(s: Seq<u8>) -> Seq<u8> {
    if starts_with(s, lit_git_plus()) {
        s.subrange(lit_git_plus().len() as int, s.len() as int)
    } else {
        s
    }
}

/// Split a Git sdist URL into the URL handed to the Git fetcher (fragment
/// dropped, `git+` stripped) and the optional subdirectory.
pub fn split_git_url(url: &Vec<u8>) -> (r: (Vec<u8>, Option<Vec<u8>>))
    ensures
        r.0@ == strip_git_plus(fragment_base(url@)),
        r.1 matches Some(d) ==> fragment_subdir(url@) matches Some(e) && d@ == e,
        r.1 is None <==> fragment_subdir(url@) is None,
{
    let (base, sub) = split_archive_url(url);
    let mut key: Vec<u8> = Vec::new();
    key.push(0x67);
    key.push(0x69);
    key.push(0x74);
    key.push(0x2b);
    proof {
        assert(key@ =~= lit_git_plus());
    }
    if crate::text::has_prefix(&base, &key) {
        let stripped = subvec(&base, key.len(), base.len());
        (stripped, sub)
    } else {
        (base, sub)
    }
}

/// The stable identifier of a local-path sdist: the package name plus a
/// digest of the path.
pub open spec fn distribution_id_spec(name: Seq<u8>, path: Seq<u8>) -> Seq<u8> {
    name + seq![0x2du8] + crate::cache::hex64(crate::cache::fx_digest64(path))
}

/// Derive the cache leaf for a local-path sdist.
pub fn distribution_id(name: &PackageName, path: &Vec<u8>) -> (r: Vec<u8>)
    ensures
        r@ == distribution_id_spec(name.bytes@, path@),
{
    let mut out = name.bytes.clone();
    out.push(0x2d);
    let h = crate::cache::path_digest(path);
    crate::text::push_all(&mut out, &h);
    proof {
        assert(out@ =~= distribution_id_spec(name.bytes@, path@));
    }
    out
}

} // verus!
