//! Package names, built-wheel metadata, and the per-sdist map of built
//! wheels.
//!
//! `Metadata21` is the slice of a wheel's core metadata that the coordinator
//! reads: the distribution name and version. `Metadata21s` maps each built
//! wheel's parsed filename to the un-normalized filename on disk and the
//! metadata read out of the wheel.

use vstd::prelude::*;
use crate::filename::{compatible, Tags, WheelFilename};
use crate::text::{
    has_prefix, is_json_safe, json_safe, split, split_spec, starts_with, subvec, views,
};

verus! {

/// A byte that package-name normalization folds into `-`.
pub open spec fn name_sep(b: u8) -> bool {
    b == 0x2d || b == 0x5f || b == 0x2e
}

/// Package-name normalization from position `i` on: lowercase ASCII, with
/// every run of `-`, `_` and `.` folded into a single `-`.
pub open spec fn norm_from(s: Seq<u8>, i: int) -> Seq<u8>
    decreases s.len() - i,
{
    if !(0 <= i < s.len()) {
        Seq::empty()
    } else if name_sep(s[i]) && i + 1 < s.len() && name_sep(s[i + 1]) {
        norm_from(s, i + 1)
    } else if name_sep(s[i]) {
        seq![0x2du8] + norm_from(s, i + 1)
    } else {
        seq![crate::text::lower_byte(s[i])] + norm_from(s, i + 1)
    }
}

/// The normalized form of a package name.
pub open spec fn norm_spec(s: Seq<u8>) -> Seq<u8> {
    norm_from(s, 0)
}

/// A normalized package name.
#[derive(Clone, Debug)]
pub struct PackageName {
    pub bytes: Vec<u8>,
}

impl PackageName {
    /// The stored bytes are in normalized form.
    pub open spec fn wf(self) -> bool {
        self.bytes@ == norm_spec(self.bytes@)
    }

    /// Normalize `input` into a package name.
    pub fn new(input: &Vec<u8>) -> (r: PackageName)
        ensures
            r.bytes@ == norm_spec(input@),
    {
        let mut out: Vec<u8> = Vec::new();
        let mut i: usize = 0;
        while i < input.len()
            invariant
                i <= input.len(),
                out@ + norm_from(input@, i as int) == norm_spec(input@),
            decreases input.len() - i,
        {
            let b = input[i];
            let sep = b == 0x2d || b == 0x5f || b == 0x2e;
            if sep && i + 1 < input.len() && (input[i + 1] == 0x2d || input[i + 1] == 0x5f
                || input[i + 1] == 0x2e) {
                // fold the run: keep only its last separator
            } else if sep {
                out.push(0x2d);
                proof {
                    assert(out@ + norm_from(input@, i + 1) =~= out@.subrange(0, out@.len() - 1)
                        + (seq![0x2du8] + norm_from(input@, i + 1)));
                }
            } else {
                let mut c = b;
                if 0x41 <= b && b <= 0x5a {
                    c = b + 0x20;
                }
                out.push(c);
                proof {
                    assert(out@ + norm_from(input@, i + 1) =~= out@.subrange(0, out@.len() - 1)
                        + (seq![crate::text::lower_byte(input@[i as int])] + norm_from(
                        input@,
                        i + 1,
                    )));
                }
            }
            i += 1;
        }
        PackageName { bytes: out }
    }

    /// Byte equality of two names.
    pub fn same_as(&self, other: &PackageName) -> (r: bool)
        ensures
            r == (self.bytes@ == other.bytes@),
    {
        crate::text::bytes_eq(&self.bytes, &other.bytes)
    }
}

/// The part of a built wheel's core metadata that the coordinator reads.
#[derive(Clone, Debug)]
pub struct Metadata21 {
    pub name: PackageName,
    pub version: Vec<u8>,
}

/// Index of the first empty line, or -1 when there is none. An empty line
/// ends the header block of a core-metadata file; the message body follows.
pub open spec fn first_blank(lines: Seq<Seq<u8>>) -> int
    decreases lines.len(),
{
    if lines.len() == 0 {
        -1
    } else if lines[0].len() == 0 {
        0
    } else {
        let r = first_blank(lines.subrange(1, lines.len() as int));
        if r < 0 {
            -1
        } else {
            r + 1
        }
    }
}

/// `first_blank` names the first empty line: every line before it is
/// non-empty, and a hit is in bounds and empty.
pub proof fn lemma_first_blank(lines: Seq<Seq<u8>>)
    ensures
        first_blank(lines) >= 0 ==> 0 <= first_blank(lines) < lines.len()
            && lines[first_blank(lines)].len() == 0,
        forall|j: int| 0 <= j && j < first_blank(lines) ==> (#[trigger] lines[j]).len() > 0,
        first_blank(lines) < 0 ==> forall|j: int|
            0 <= j < lines.len() ==> (#[trigger] lines[j]).len() > 0,
    decreases lines.len(),
{
    if lines.len() == 0 {
    } else if lines[0].len() == 0 {
    } else {
        let t = lines.subrange(1, lines.len() as int);
        lemma_first_blank(t);
        assert forall|j: int| 0 <= j && j < first_blank(lines) implies (
        #[trigger] lines[j]).len() > 0 by {
            if j > 0 {
                assert(lines[j] == t[j - 1]);
            }
        }
        if first_blank(t) < 0 {
            assert forall|j: int| 0 <= j < lines.len() implies (#[trigger] lines[j]).len()
                > 0 by {
                if j > 0 {
                    assert(lines[j] == t[j - 1]);
                }
            }
        }
    }
}

/// The header block: the lines before the first empty line.
pub open spec fn header_block(lines: Seq<Seq<u8>>) -> Seq<Seq<u8>> {
    let b = first_blank(lines);
    if b < 0 {
        lines
    } else {
        lines.subrange(0, b)
    }
}

/// The value of the first line of `lines` that starts with `key`, with the
/// key stripped.
pub open spec fn header_value(lines: Seq<Seq<u8>>, key: Seq<u8>) -> Option<Seq<u8>>
    decreases lines.len(),
{
    if lines.len() == 0 {
        Option::None
    } else if starts_with(lines[0], key) {
        Option::Some(lines[0].subrange(key.len() as int, lines[0].len() as int))
    } else {
        header_value(lines.subrange(1, lines.len() as int), key)
    }
}

/// The `Name: ` header key.
pub open spec fn name_key() -> Seq<u8> {
    seq![0x4eu8, 0x61u8, 0x6du8, 0x65u8, 0x3au8, 0x20u8]
}

/// The `Version: ` header key.
pub open spec fn version_key() -> Seq<u8> {
    seq![0x56u8, 0x65u8, 0x72u8, 0x73u8, 0x69u8, 0x6fu8, 0x6eu8, 0x3au8, 0x20u8]
}

/// Whether `input`'s header block — the lines before the first empty line
/// — yields both headers with values the sidecar can store.
pub open spec fn metadata_parses(input: Seq<u8>) -> bool {
    let lines = header_block(split_spec(input, 0x0a));
    &&& header_value(lines, name_key()) is Some
    &&& header_value(lines, version_key()) is Some
    &&& json_safe(norm_spec(header_value(lines, name_key())->Some_0))
    &&& json_safe(header_value(lines, version_key())->Some_0)
}

impl Metadata21 {
    /// The stored fields are normalized and sidecar-safe.
    pub open spec fn wf(self) -> bool {
        &&& self.name.wf()
        &&& json_safe(self.name.bytes@)
        &&& json_safe(self.version@)
    }

    /// Read the distribution name and version out of a `METADATA` file.
    /// Only the header block — the lines before the first empty line — is
    /// read; the message body cannot supply a header. Succeeds exactly when
    /// both headers are present and their values can be stored; the name is
    /// normalized on the way in.
    pub fn parse(input: &Vec<u8>) -> (r: Option<Metadata21>)
        ensures
            r is Some <==> metadata_parses(input@),
            r matches Some(m) ==> {
                let lines = header_block(split_spec(input@, 0x0a));
                &&& m.wf()
                &&& m.name.bytes@ == norm_spec(header_value(lines, name_key())->Some_0)
                &&& m.version@ == header_value(lines, version_key())->Some_0
            },
    {
        let all_lines = split(input, 0x0a);
        let lines = take_headers(&all_lines);
        let nk = name_key_bytes();
        let vk = version_key_bytes();
        let name_raw = find_header(&lines, &nk);
        let version_raw = find_header(&lines, &vk);
        match (name_raw, version_raw) {
            (Some(n), Some(v)) => {
                let name = PackageName::new(&n);
                if !is_json_safe(&name.bytes) {
                    return None;
                }
                if !is_json_safe(&v) {
                    return None;
                }
                proof {
                    lemma_norm_idempotent(n@, 0);
                }
                Some(Metadata21 { name, version: v })
            },
            _ => None,
        }
    }
}

/// Keep the header block of a line list: everything before the first
/// empty line.
pub fn take_headers(lines: &Vec<Vec<u8>>) -> (r: Vec<Vec<u8>>)
    ensures
        views(r@) == header_block(views(lines@)),
{
    let ghost lv = views(lines@);
    let mut r: Vec<Vec<u8>> = Vec::new();
    let mut i: usize = 0;
    while i < lines.len()
        invariant
            i <= lines@.len(),
            r@.len() == i,
            forall|j: int| 0 <= j < i ==> (#[trigger] r@[j])@ == views(lines@)[j],
            forall|j: int| 0 <= j < i ==> (#[trigger] views(lines@)[j]).len() > 0,
        decreases lines@.len() - i,
    {
        if lines[i].len() == 0 {
            proof {
                lemma_first_blank(views(lines@));
                assert(views(lines@)[i as int].len() == 0);
                assert(first_blank(views(lines@)) == i as int) by {
                    let b = first_blank(views(lines@));
                    assert(b >= 0);
                    if b < i as int {
                        assert(views(lines@)[b].len() > 0);
                    }
                    if b > i as int {
                        assert(views(lines@)[i as int].len() > 0);
                    }
                }
                assert(views(r@) =~= views(lines@).subrange(0, i as int));
            }
            return r;
        }
        let line = lines[i].clone();
        r.push(line);
        i += 1;
    }
    proof {
        lemma_first_blank(views(lines@));
        if first_blank(views(lines@)) >= 0 {
            assert(views(lines@)[first_blank(views(lines@))].len() == 0);
        }
        assert(views(r@) =~= views(lines@));
    }
    r
}

/// The bytes of the `Name: ` key.
pub fn name_key_bytes() -> (r: Vec<u8>)
    ensures
        r@ == name_key(),
{
    let mut r: Vec<u8> = Vec::new();
    r.push(0x4e);
    r.push(0x61);
    r.push(0x6d);
    r.push(0x65);
    r.push(0x3a);
    r.push(0x20);
    proof {
        assert(r@ =~= name_key());
    }
    r
}

/// The bytes of the `Version: ` key.
pub fn version_key_bytes() -> (r: Vec<u8>)
    ensures
        r@ == version_key(),
{
    let mut r: Vec<u8> = Vec::new();
    r.push(0x56);
    r.push(0x65);
    r.push(0x72);
    r.push(0x73);
    r.push(0x69);
    r.push(0x6f);
    r.push(0x6e);
    r.push(0x3a);
    r.push(0x20);
    proof {
        assert(r@ =~= version_key());
    }
    r
}

/// Find the first line carrying `key` and return its value.
pub fn find_header(lines: &Vec<Vec<u8>>, key: &Vec<u8>) -> (r: Option<Vec<u8>>)
    ensures
        r is Some <==> header_value(views(lines@), key@) is Some,
        r matches Some(v) ==> v@ == header_value(views(lines@), key@)->Some_0,
{
    proof {
        assert(views(lines@).subrange(0, lines@.len() as int) =~= views(lines@));
    }
    let mut i: usize = 0;
    while i < lines.len()
        invariant
            i <= lines.len(),
            header_value(views(lines@), key@) == header_value(
                views(lines@).subrange(i as int, lines@.len() as int),
                key@,
            ),
            forall|j: int| 0 <= j < i ==> !starts_with(#[trigger] views(lines@)[j], key@),
        decreases lines.len() - i,
    {
        let line = &lines[i];
        if has_prefix(line, key) {
            let v = subvec(line, key.len(), line.len());
            proof {
                let tail = views(lines@).subrange(i as int, lines@.len() as int);
                assert(tail[0] == views(lines@)[i as int]);
            }
            return Some(v);
        }
        proof {
            let tail = views(lines@).subrange(i as int, lines@.len() as int);
            assert(tail[0] == views(lines@)[i as int]);
            assert(tail.subrange(1, tail.len() as int) =~= views(lines@).subrange(
                i + 1,
                lines@.len() as int,
            ));
        }
        i += 1;
    }
    proof {
        assert(views(lines@).subrange(lines@.len() as int, lines@.len() as int).len() == 0);
    }
    None
}

/// Normalization is idempotent: a normalized name normalizes to itself.
pub proof fn lemma_norm_idempotent(s: Seq<u8>, i: int)
    ensures
        norm_from(norm_from(s, i), 0) == norm_from(s, i),
    decreases s.len() - i,
{
    if !(0 <= i < s.len()) {
    } else {
        lemma_norm_idempotent(s, i + 1);
        let rest = norm_from(s, i + 1);
        if name_sep(s[i]) && i + 1 < s.len() && name_sep(s[i + 1]) {
        } else if name_sep(s[i]) {
            lemma_norm_cons(0x2d, rest);
        } else {
            lemma_norm_cons(crate::text::lower_byte(s[i]), rest);
        }
    }
}

/// Prepending one already-normal byte to a normalized tail keeps the whole
/// normal, as long as the byte is not a separator followed by a separator.
proof fn lemma_norm_cons(b: u8, rest: Seq<u8>)
    requires
        norm_from(rest, 0) == rest,
        !(0x41 <= b <= 0x5a),
        name_sep(b) ==> b == 0x2d,
        name_sep(b) && rest.len() > 0 ==> !name_sep(rest[0]),
    ensures
        norm_from(seq![b] + rest, 0) == seq![b] + rest,
{
    let s = seq![b] + rest;
    lemma_norm_shift(s, 1, rest);
    assert(s[0] == b);
    if name_sep(b) && 1 < s.len() && name_sep(s[1]) {
        assert(rest[0] == s[1]);
        assert(false);
    } else if name_sep(b) {
        assert(norm_from(s, 0) == seq![0x2du8] + norm_from(s, 1));
        assert(norm_from(s, 0) =~= s);
    } else {
        assert(crate::text::lower_byte(b) == b);
        assert(norm_from(s, 0) =~= s);
    }
}

/// Normalizing `s` from position `d` equals normalizing the tail of `s`
/// from its start, when the tail agrees with `s` shifted by `d`.
proof fn lemma_norm_shift(s: Seq<u8>, d: int, t: Seq<u8>)
    requires
        0 <= d <= s.len(),
        t =~= s.subrange(d, s.len() as int),
    ensures
        norm_from(s, d) == norm_from(t, 0),
    decreases s.len() - d,
{
    lemma_norm_shift_from(s, d, t, 0)
}

/// Generalization of `lemma_norm_shift` over the running index.
proof fn lemma_norm_shift_from(s: Seq<u8>, d: int, t: Seq<u8>, k: int)
    requires
        0 <= d <= s.len(),
        0 <= k,
        t =~= s.subrange(d, s.len() as int),
    ensures
        norm_from(s, d + k) == norm_from(t, k),
    decreases s.len() - d - k,
{
    if d + k >= s.len() {
        assert(k >= t.len());
    } else {
        lemma_norm_shift_from(s, d, t, k + 1);
        assert(s[d + k] == t[k]);
        if d + k + 1 < s.len() {
            assert(s[d + k + 1] == t[k + 1]);
        }
    }
}

/// The pair stored for one built wheel: the filename as the build backend
/// wrote it, and the metadata read from the wheel. The stored strings must
/// be JSON-safe: the sidecar stores them verbatim, without escapes.
#[derive(Clone, Debug)]
pub struct DiskFilenameAndMetadata {
    pub disk_filename: Vec<u8>,
    pub metadata: Metadata21,
}

impl DiskFilenameAndMetadata {
    /// The stored strings are sidecar-safe.
    pub open spec fn wf(self) -> bool {
        &&& json_safe(self.disk_filename@)
        &&& self.metadata.wf()
    }
}

/// One entry of the per-sdist map.
#[derive(Clone, Debug)]
pub struct MapEntry {
    pub key: WheelFilename,
    pub value: DiskFilenameAndMetadata,
}

/// The two entries agree view for view: same parsed filename, same disk
/// filename, same metadata.
pub open spec fn same_entry(a: MapEntry, b: MapEntry) -> bool {
    &&& crate::filename::same_filename(a.key, b.key)
    &&& a.value.disk_filename@ == b.value.disk_filename@
    &&& a.value.metadata.name.bytes@ == b.value.metadata.name.bytes@
    &&& a.value.metadata.version@ == b.value.metadata.version@
}

/// The wheels built for one sdist: a map from parsed wheel filename to the
/// on-disk filename and metadata, in insertion order.
#[derive(Clone, Debug)]
pub struct Metadata21s {
    pub entries: Vec<MapEntry>,
}

impl Metadata21s {
    /// Keys are well-formed and distinct; values are sidecar-safe.
    pub open spec fn wf(self) -> bool {
        &&& forall|i: int|
            0 <= i < self.entries@.len() ==> (#[trigger] self.entries@[i]).key.wf()
                && self.entries@[i].value.wf()
        &&& forall|i: int, j: int|
            0 <= i < j < self.entries@.len() ==> (#[trigger] self.entries@[i]).key.raw@ != (
            #[trigger] self.entries@[j]).key.raw@
    }

    /// The map holds an entry for the filename `k`.
    pub open spec fn has_key(self, k: Seq<u8>) -> bool {
        exists|i: int| 0 <= i < self.entries@.len() && (#[trigger] self.entries@[i]).key.raw@ == k
    }

    /// An empty map.
    pub fn new() -> (r: Metadata21s)
        ensures
            r.entries@.len() == 0,
            r.wf(),
    {
        Metadata21s { entries: Vec::new() }
    }

    /// Insert a wheel, replacing the entry with the same filename if one is
    /// there and appending otherwise. Every other entry is kept unchanged.
    pub fn insert(&mut self, key: WheelFilename, value: DiskFilenameAndMetadata)
        requires
            old(self).wf(),
            key.wf(),
            value.wf(),
        ensures
            final(self).wf(),
            final(self).has_key(key.raw@),
            old(self).has_key(key.raw@) ==> final(self).entries@.len() == old(
                self,
            ).entries@.len(),
            !old(self).has_key(key.raw@) ==> final(self).entries@.len() == old(
                self,
            ).entries@.len() + 1,
            exists|i: int|
                0 <= i < final(self).entries@.len() && (#[trigger] final(self).entries@[i]).key
                    == key && final(self).entries@[i].value == value,
            forall|i: int|
                0 <= i < old(self).entries@.len() && (#[trigger] old(self).entries@[i]).key.raw@
                    != key.raw@ ==> final(self).entries@[i] == old(self).entries@[i],
    {
        let ghost init = *self;
        let mut i: usize = 0;
        while i < self.entries.len()
            invariant
                i <= self.entries@.len(),
                *self == init,
                init == *old(self),
                init.wf(),
                key.wf(),
                value.wf(),
                forall|j: int| 0 <= j < i ==> (#[trigger] self.entries@[j]).key.raw@ != key.raw@,
            decreases self.entries@.len() - i,
        {
            if crate::text::bytes_eq(&self.entries[i].key.raw, &key.raw) {
                proof {
                    assert(init.entries@[i as int].key.raw@ == key.raw@);
                }
                self.entries.set(i, MapEntry { key, value });
                proof {
                    let se = self.entries@;
                    assert(se[i as int].key == key);
                    assert forall|a: int, b: int| 0 <= a < b < se.len() implies (
                    #[trigger] se[a]).key.raw@ != (#[trigger] se[b]).key.raw@ by {
                        assert(init.entries@[a].key.raw@ != init.entries@[b].key.raw@);
                        if a != i as int {
                            assert(se[a] == init.entries@[a]);
                        }
                        if b != i as int {
                            assert(se[b] == init.entries@[b]);
                        }
                    }
                    assert forall|j: int| 0 <= j < se.len() implies (#[trigger] se[j]).key.wf()
                        && se[j].value.wf() by {
                        if j != i as int {
                            assert(se[j] == init.entries@[j]);
                        }
                    }
                }
                return;
            }
            i += 1;
        }
        self.entries.push(MapEntry { key, value });
        proof {
            let se = self.entries@;
            let n = se.len() - 1;
            assert(se[n].key == key);
            assert forall|a: int, b: int| 0 <= a < b < se.len() implies (
            #[trigger] se[a]).key.raw@ != (#[trigger] se[b]).key.raw@ by {
                if b < n {
                    assert(se[a] == init.entries@[a] && se[b] == init.entries@[b]);
                    assert(init.entries@[a].key.raw@ != init.entries@[b].key.raw@);
                } else {
                    assert(se[a] == init.entries@[a]);
                    assert(init.entries@[a].key.raw@ != key.raw@);
                }
            }
            assert forall|j: int| 0 <= j < se.len() implies (#[trigger] se[j]).key.wf()
                && se[j].value.wf() by {
                if j < n {
                    assert(se[j] == init.entries@[j]);
                }
            }
        }
    }

    /// Whether the map holds an entry keyed by the filename bytes `k`.
    pub fn contains_key(&self, k: &Vec<u8>) -> (r: bool)
        ensures
            r == self.has_key(k@),
    {
        let mut i: usize = 0;
        while i < self.entries.len()
            invariant
                i <= self.entries@.len(),
                forall|j: int| 0 <= j < i ==> (#[trigger] self.entries@[j]).key.raw@ != k@,
            decreases self.entries@.len() - i,
        {
            if crate::text::bytes_eq(&self.entries[i].key.raw, k) {
                assert(self.entries@[i as int].key.raw@ == k@);
                return true;
            }
            i += 1;
        }
        false
    }

    /// The first entry whose filename is compatible with `tags`, if any.
    pub fn find_compatible(&self, tags: &Tags) -> (r: Option<usize>)
        ensures
            r matches Some(i) ==> i < self.entries@.len() && compatible(
                self.entries@[i as int].key,
                *tags,
            ) && forall|j: int| 0 <= j < i ==> !compatible((#[trigger] self.entries@[j]).key, *tags),
            r is None <==> forall|i: int|
                0 <= i < self.entries@.len() ==> !compatible(
                    (#[trigger] self.entries@[i]).key,
                    *tags,
                ),
    {
        let mut i: usize = 0;
        while i < self.entries.len()
            invariant
                i <= self.entries@.len(),
                forall|j: int| 0 <= j < i ==> !compatible((#[trigger] self.entries@[j]).key, *tags),
            decreases self.entries@.len() - i,
        {
            if self.entries[i].key.is_compatible(tags) {
                return Some(i);
            }
            i += 1;
        }
        None
    }
}

} // verus!
