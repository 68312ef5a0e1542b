//! The `metadata.json` sidecar format.
//!
//! A `Metadata21s` map serializes as a JSON object keyed by the wheel
//! filename's canonical string, with values
//! `{"disk_filename": ..., "metadata": {"name": ..., "version": ...}}`.
//! HTTP-backed cache entries wrap the map in an envelope
//! `{"policy": ..., "data": ...}` that carries the client's cache policy.
//!
//! The serializer is canonical: it writes no whitespace and keeps the map's
//! entry order. The parser is strict: it accepts exactly the serializer's
//! output, so everything it accepts re-serializes to the very same bytes.
//!
//! Strings are stored verbatim, without an escape mechanism. This is a
//! deliberate restriction: every string in the sidecar must be JSON-safe —
//! printable ASCII without the quote or the backslash (`json_safe`). Wheel
//! filenames satisfy this by construction of their charset; disk filenames
//! and metadata values that do not are refused when the wheel is read, and
//! are never persisted.

use vstd::prelude::*;
use crate::filename::WheelFilename;
use crate::metadata::{DiskFilenameAndMetadata, MapEntry, Metadata21, Metadata21s, PackageName};
use crate::text::{bytes_eq, json_safe, json_safe_byte, push_all};

verus! {

/// A JSON string: the bytes between quotes, unescaped.
pub open spec fn ser_str(s: Seq<u8>) -> Seq<u8> {
    seq![0x22u8] + s + seq![0x22u8]
}

/// The bytes of `disk_filename`.
pub open spec fn lit_disk() -> Seq<u8> {
    seq![0x64u8, 0x69u8, 0x73u8, 0x6bu8, 0x5fu8, 0x66u8, 0x69u8, 0x6cu8, 0x65u8, 0x6eu8, 0x61u8,
        0x6du8, 0x65u8]
}

/// The bytes of `metadata`.
pub open spec fn lit_metadata() -> Seq<u8> {
    seq![0x6du8, 0x65u8, 0x74u8, 0x61u8, 0x64u8, 0x61u8, 0x74u8, 0x61u8]
}

/// The bytes of `name`.
pub open spec fn lit_name() -> Seq<u8> {
    seq![0x6eu8, 0x61u8, 0x6du8, 0x65u8]
}

/// The bytes of `version`.
pub open spec fn lit_version() -> Seq<u8> {
    seq![0x76u8, 0x65u8, 0x72u8, 0x73u8, 0x69u8, 0x6fu8, 0x6eu8]
}

/// The bytes of `policy`.
pub open spec fn lit_policy() -> Seq<u8> {
    seq![0x70u8, 0x6fu8, 0x6cu8, 0x69u8, 0x63u8, 0x79u8]
}

/// The bytes of `data`.
pub open spec fn lit_data() -> Seq<u8> {
    seq![0x64u8, 0x61u8, 0x74u8, 0x61u8]
}

/// An object key: the quoted name followed by a colon.
pub open spec fn ser_key(name: Seq<u8>) -> Seq<u8> {
    ser_str(name) + seq![0x3au8]
}

/// The serialized form of one `Metadata21`.
pub open spec fn ser_metadata(m: Metadata21) -> Seq<u8> {
    seq![0x7bu8] + ser_key(lit_name()) + ser_str(m.name.bytes@) + seq![0x2cu8] + ser_key(
        lit_version(),
    ) + ser_str(m.version@) + seq![0x7du8]
}

/// The serialized form of one map value.
pub open spec fn ser_value(v: DiskFilenameAndMetadata) -> Seq<u8> {
    seq![0x7bu8] + ser_key(lit_disk()) + ser_str(v.disk_filename@) + seq![0x2cu8] + ser_key(
        lit_metadata(),
    ) + ser_metadata(v.metadata) + seq![0x7du8]
}

/// The serialized form of one map entry.
pub open spec fn ser_entry(e: MapEntry) -> Seq<u8> {
    ser_str(e.key.raw@) + seq![0x3au8] + ser_value(e.value)
}

/// The serialized entry list, comma-separated.
pub open spec fn ser_entries(s: Seq<MapEntry>) -> Seq<u8>
    decreases s.len(),
{
    if s.len() == 0 {
        Seq::empty()
    } else if s.len() == 1 {
        ser_entry(s[0])
    } else {
        ser_entry(s[0]) + seq![0x2cu8] + ser_entries(s.subrange(1, s.len() as int))
    }
}

/// The serialized map.
pub open spec fn ser_map(m: Metadata21s) -> Seq<u8> {
    seq![0x7bu8] + ser_entries(m.entries@) + seq![0x7du8]
}

/// The serialized envelope around an HTTP-backed entry's map.
pub open spec fn ser_envelope(policy: Seq<u8>, m: Metadata21s) -> Seq<u8> {
    seq![0x7bu8] + ser_key(lit_policy()) + ser_str(policy) + seq![0x2cu8] + ser_key(lit_data())
        + ser_map(m) + seq![0x7du8]
}

/// Appending an entry to a non-empty list appends its serialization after a
/// comma.
pub proof fn lemma_ser_entries_snoc(s: Seq<MapEntry>, e: MapEntry)
    requires
        s.len() >= 1,
    ensures
        ser_entries(s.push(e)) == ser_entries(s) + seq![0x2cu8] + ser_entry(e),
    decreases s.len(),
{
    let p = s.push(e);
    if s.len() == 1 {
        assert(p.subrange(1, p.len() as int) =~= seq![e]);
        assert(ser_entries(p.subrange(1, p.len() as int)) == ser_entry(e));
        assert(p[0] == s[0]);
    } else {
        let st = s.subrange(1, s.len() as int);
        lemma_ser_entries_snoc(st, e);
        assert(p.subrange(1, p.len() as int) =~= st.push(e));
        assert(p[0] == s[0]);
        assert(ser_entries(p) == ser_entry(s[0]) + seq![0x2cu8] + ser_entries(st.push(e)));
        assert(ser_entry(s[0]) + seq![0x2cu8] + (ser_entries(st) + seq![0x2cu8] + ser_entry(e))
            =~= (ser_entry(s[0]) + seq![0x2cu8] + ser_entries(st)) + seq![0x2cu8] + ser_entry(e));
    }
}

/// Quoted JSON-safe strings delimit themselves: equal streams that both
/// begin with a quoted string carry the same string and the same rest.
proof fn lemma_ser_str_prefix_inj(a: Seq<u8>, b: Seq<u8>, x: Seq<u8>, y: Seq<u8>)
    requires
        json_safe(a),
        json_safe(b),
        ser_str(a) + x == ser_str(b) + y,
    ensures
        a == b,
        x == y,
{
    let la = a.len() as int;
    let lb = b.len() as int;
    let lhs = ser_str(a) + x;
    let rhs = ser_str(b) + y;
    assert(lhs.len() == la + 2 + x.len());
    assert(rhs.len() == lb + 2 + y.len());
    if la < lb {
        assert(lhs[la + 1] == ser_str(a)[la + 1]);
        assert(ser_str(a)[la + 1] == 0x22);
        assert(rhs[la + 1] == ser_str(b)[la + 1]);
        assert(ser_str(b)[la + 1] == b[la]);
        assert(json_safe_byte(b[la]));
        assert(false);
    }
    if lb < la {
        assert(rhs[lb + 1] == ser_str(b)[lb + 1]);
        assert(ser_str(b)[lb + 1] == 0x22);
        assert(lhs[lb + 1] == ser_str(a)[lb + 1]);
        assert(ser_str(a)[lb + 1] == a[lb]);
        assert(json_safe_byte(a[lb]));
        assert(false);
    }
    crate::text::lemma_concat_cancel(ser_str(a), x, ser_str(b), y);
    assert forall|t: int| 0 <= t < la implies a[t] == b[t] by {
        assert(ser_str(a)[1 + t] == a[t]);
        assert(ser_str(b)[1 + t] == b[t]);
    }
    assert(a =~= b);
}

/// Equal streams that both begin with a serialized `Metadata21` carry
/// view-equal metadata and the same rest.
proof fn lemma_ser_metadata_prefix_inj(m1: Metadata21, m2: Metadata21, x: Seq<u8>, y: Seq<u8>)
    requires
        m1.wf(),
        m2.wf(),
        ser_metadata(m1) + x == ser_metadata(m2) + y,
    ensures
        m1.name.bytes@ == m2.name.bytes@,
        m1.version@ == m2.version@,
        x == y,
{
    let h = seq![0x7bu8] + ser_key(lit_name());
    let mid = seq![0x2cu8] + ser_key(lit_version());
    let rb = seq![0x7du8];
    assert(ser_metadata(m1) + x =~= h + (ser_str(m1.name.bytes@) + (mid + (ser_str(m1.version@)
        + (rb + x)))));
    assert(ser_metadata(m2) + y =~= h + (ser_str(m2.name.bytes@) + (mid + (ser_str(m2.version@)
        + (rb + y)))));
    crate::text::lemma_concat_cancel(
        h,
        ser_str(m1.name.bytes@) + (mid + (ser_str(m1.version@) + (rb + x))),
        h,
        ser_str(m2.name.bytes@) + (mid + (ser_str(m2.version@) + (rb + y))),
    );
    lemma_ser_str_prefix_inj(
        m1.name.bytes@,
        m2.name.bytes@,
        mid + (ser_str(m1.version@) + (rb + x)),
        mid + (ser_str(m2.version@) + (rb + y)),
    );
    crate::text::lemma_concat_cancel(
        mid,
        ser_str(m1.version@) + (rb + x),
        mid,
        ser_str(m2.version@) + (rb + y),
    );
    lemma_ser_str_prefix_inj(m1.version@, m2.version@, rb + x, rb + y);
    crate::text::lemma_concat_cancel(rb, x, rb, y);
}

/// Equal streams that both begin with a serialized map value carry
/// view-equal values and the same rest.
proof fn lemma_ser_value_prefix_inj(
    v1: DiskFilenameAndMetadata,
    v2: DiskFilenameAndMetadata,
    x: Seq<u8>,
    y: Seq<u8>,
)
    requires
        v1.wf(),
        v2.wf(),
        ser_value(v1) + x == ser_value(v2) + y,
    ensures
        v1.disk_filename@ == v2.disk_filename@,
        v1.metadata.name.bytes@ == v2.metadata.name.bytes@,
        v1.metadata.version@ == v2.metadata.version@,
        x == y,
{
    let h = seq![0x7bu8] + ser_key(lit_disk());
    let mid = seq![0x2cu8] + ser_key(lit_metadata());
    let rb = seq![0x7du8];
    assert(ser_value(v1) + x =~= h + (ser_str(v1.disk_filename@) + (mid + (ser_metadata(
        v1.metadata,
    ) + (rb + x)))));
    assert(ser_value(v2) + y =~= h + (ser_str(v2.disk_filename@) + (mid + (ser_metadata(
        v2.metadata,
    ) + (rb + y)))));
    crate::text::lemma_concat_cancel(
        h,
        ser_str(v1.disk_filename@) + (mid + (ser_metadata(v1.metadata) + (rb + x))),
        h,
        ser_str(v2.disk_filename@) + (mid + (ser_metadata(v2.metadata) + (rb + y))),
    );
    lemma_ser_str_prefix_inj(
        v1.disk_filename@,
        v2.disk_filename@,
        mid + (ser_metadata(v1.metadata) + (rb + x)),
        mid + (ser_metadata(v2.metadata) + (rb + y)),
    );
    crate::text::lemma_concat_cancel(
        mid,
        ser_metadata(v1.metadata) + (rb + x),
        mid,
        ser_metadata(v2.metadata) + (rb + y),
    );
    lemma_ser_metadata_prefix_inj(v1.metadata, v2.metadata, rb + x, rb + y);
    crate::text::lemma_concat_cancel(rb, x, rb, y);
}

/// Equal streams that both begin with a serialized entry carry the same
/// entry, view for view, and the same rest.
proof fn lemma_ser_entry_prefix_inj(e1: MapEntry, e2: MapEntry, x: Seq<u8>, y: Seq<u8>)
    requires
        e1.key.wf(),
        e1.value.wf(),
        e2.key.wf(),
        e2.value.wf(),
        ser_entry(e1) + x == ser_entry(e2) + y,
    ensures
        crate::metadata::same_entry(e1, e2),
        x == y,
{
    let colon = seq![0x3au8];
    crate::filename::lemma_wheel_charset_json_safe(e1.key.raw@);
    crate::filename::lemma_wheel_charset_json_safe(e2.key.raw@);
    assert(ser_entry(e1) + x =~= ser_str(e1.key.raw@) + (colon + (ser_value(e1.value) + x)));
    assert(ser_entry(e2) + y =~= ser_str(e2.key.raw@) + (colon + (ser_value(e2.value) + y)));
    lemma_ser_str_prefix_inj(
        e1.key.raw@,
        e2.key.raw@,
        colon + (ser_value(e1.value) + x),
        colon + (ser_value(e2.value) + y),
    );
    crate::text::lemma_concat_cancel(
        colon,
        ser_value(e1.value) + x,
        colon,
        ser_value(e2.value) + y,
    );
    lemma_ser_value_prefix_inj(e1.value, e2.value, x, y);
}

/// The entry list's serialization is injective up to views, on lists of
/// well-formed entries.
proof fn lemma_ser_entries_inj(s1: Seq<MapEntry>, s2: Seq<MapEntry>)
    requires
        forall|i: int| 0 <= i < s1.len() ==> (#[trigger] s1[i]).key.wf() && s1[i].value.wf(),
        forall|i: int| 0 <= i < s2.len() ==> (#[trigger] s2[i]).key.wf() && s2[i].value.wf(),
        ser_entries(s1) == ser_entries(s2),
    ensures
        s1.len() == s2.len(),
        forall|i: int| 0 <= i < s1.len() ==> crate::metadata::same_entry(s1[i], s2[i]),
    decreases s1.len(),
{
    if s1.len() == 0 || s2.len() == 0 {
        if s1.len() != s2.len() {
            let w = if s1.len() > 0 { s1 } else { s2 };
            assert(ser_entries(w).len() >= ser_entry(w[0]).len()) by {
                if w.len() > 1 {
                    assert(ser_entries(w) == ser_entry(w[0]) + seq![0x2cu8] + ser_entries(
                        w.subrange(1, w.len() as int),
                    ));
                }
            }
            assert(ser_entry(w[0]).len() >= 2);
            assert(false);
        }
    } else {
        let r1 = if s1.len() == 1 { Seq::<u8>::empty() } else {
            seq![0x2cu8] + ser_entries(s1.subrange(1, s1.len() as int))
        };
        let r2 = if s2.len() == 1 { Seq::<u8>::empty() } else {
            seq![0x2cu8] + ser_entries(s2.subrange(1, s2.len() as int))
        };
        assert(ser_entries(s1) =~= ser_entry(s1[0]) + r1);
        assert(ser_entries(s2) =~= ser_entry(s2[0]) + r2);
        lemma_ser_entry_prefix_inj(s1[0], s2[0], r1, r2);
        if s1.len() == 1 && s2.len() == 1 {
        } else if s1.len() == 1 {
            assert(r2.len() > 0);
            assert(false);
        } else if s2.len() == 1 {
            assert(r1.len() > 0);
            assert(false);
        } else {
            let t1 = s1.subrange(1, s1.len() as int);
            let t2 = s2.subrange(1, s2.len() as int);
            crate::text::lemma_concat_cancel(
                seq![0x2cu8],
                ser_entries(t1),
                seq![0x2cu8],
                ser_entries(t2),
            );
            lemma_ser_entries_inj(t1, t2);
            assert forall|i: int| 0 <= i < s1.len() implies crate::metadata::same_entry(
                s1[i],
                s2[i],
            ) by {
                if i > 0 {
                    assert(crate::metadata::same_entry(t1[i - 1], t2[i - 1]));
                }
            }
        }
    }
}

/// The sidecar serialization is injective up to views: two well-formed
/// maps with the same bytes hold the same entries in the same order.
pub proof fn lemma_ser_map_inj(m1: Metadata21s, m2: Metadata21s)
    requires
        m1.wf(),
        m2.wf(),
        ser_map(m1) == ser_map(m2),
    ensures
        m1.entries@.len() == m2.entries@.len(),
        forall|i: int|
            0 <= i < m1.entries@.len() ==> crate::metadata::same_entry(
                m1.entries@[i],
                m2.entries@[i],
            ),
{
    assert(ser_map(m1) =~= seq![0x7bu8] + (ser_entries(m1.entries@) + seq![0x7du8]));
    assert(ser_map(m2) =~= seq![0x7bu8] + (ser_entries(m2.entries@) + seq![0x7du8]));
    crate::text::lemma_concat_cancel(
        seq![0x7bu8],
        ser_entries(m1.entries@) + seq![0x7du8],
        seq![0x7bu8],
        ser_entries(m2.entries@) + seq![0x7du8],
    );
    crate::text::lemma_concat_cancel(
        ser_entries(m1.entries@),
        seq![0x7du8],
        ser_entries(m2.entries@),
        seq![0x7du8],
    );
    lemma_ser_entries_inj(m1.entries@, m2.entries@);
}

/// The envelope serialization is injective up to views on its policy and
/// its map.
pub proof fn lemma_ser_envelope_inj(p1: Seq<u8>, m1: Metadata21s, p2: Seq<u8>, m2: Metadata21s)
    requires
        json_safe(p1),
        json_safe(p2),
        m1.wf(),
        m2.wf(),
        ser_envelope(p1, m1) == ser_envelope(p2, m2),
    ensures
        p1 == p2,
        m1.entries@.len() == m2.entries@.len(),
        forall|i: int|
            0 <= i < m1.entries@.len() ==> crate::metadata::same_entry(
                m1.entries@[i],
                m2.entries@[i],
            ),
{
    let h = seq![0x7bu8] + ser_key(lit_policy());
    let mid = seq![0x2cu8] + ser_key(lit_data());
    let rb = seq![0x7du8];
    assert(ser_envelope(p1, m1) =~= h + (ser_str(p1) + (mid + (ser_map(m1) + rb))));
    assert(ser_envelope(p2, m2) =~= h + (ser_str(p2) + (mid + (ser_map(m2) + rb))));
    crate::text::lemma_concat_cancel(
        h,
        ser_str(p1) + (mid + (ser_map(m1) + rb)),
        h,
        ser_str(p2) + (mid + (ser_map(m2) + rb)),
    );
    lemma_ser_str_prefix_inj(p1, p2, mid + (ser_map(m1) + rb), mid + (ser_map(m2) + rb));
    crate::text::lemma_concat_cancel(mid, ser_map(m1) + rb, mid, ser_map(m2) + rb);
    crate::text::lemma_concat_cancel(ser_map(m1), rb, ser_map(m2), rb);
    lemma_ser_map_inj(m1, m2);
}

/// Write a quoted string.
fn write_str(out: &mut Vec<u8>, s: &Vec<u8>)
    ensures
        final(out)@ == old(out)@ + ser_str(s@),
{
    out.push(0x22);
    push_all(out, s);
    out.push(0x22);
    proof {
        assert(out@ =~= old(out)@ + ser_str(s@));
    }
}

/// Build the literal `disk_filename`.
fn disk_lit_bytes() -> (r: Vec<u8>)
    ensures
        r@ == lit_disk(),
{
    let mut r: Vec<u8> = Vec::new();
    r.push(0x64);
    r.push(0x69);
    r.push(0x73);
    r.push(0x6b);
    r.push(0x5f);
    r.push(0x66);
    r.push(0x69);
    r.push(0x6c);
    r.push(0x65);
    r.push(0x6e);
    r.push(0x61);
    r.push(0x6d);
    r.push(0x65);
    proof {
        assert(r@ =~= lit_disk());
    }
    r
}

/// Build the literal `metadata`.
fn metadata_lit_bytes() -> (r: Vec<u8>)
    ensures
        r@ == lit_metadata(),
{
    let mut r: Vec<u8> = Vec::new();
    r.push(0x6d);
    r.push(0x65);
    r.push(0x74);
    r.push(0x61);
    r.push(0x64);
    r.push(0x61);
    r.push(0x74);
    r.push(0x61);
    proof {
        assert(r@ =~= lit_metadata());
    }
    r
}

/// Build the literal `name`.
fn name_lit_bytes() -> (r: Vec<u8>)
    ensures
        r@ == lit_name(),
{
    let mut r: Vec<u8> = Vec::new();
    r.push(0x6e);
    r.push(0x61);
    r.push(0x6d);
    r.push(0x65);
    proof {
        assert(r@ =~= lit_name());
    }
    r
}

/// Build the literal `version`.
fn version_lit_bytes() -> (r: Vec<u8>)
    ensures
        r@ == lit_version(),
{
    let mut r: Vec<u8> = Vec::new();
    r.push(0x76);
    r.push(0x65);
    r.push(0x72);
    r.push(0x73);
    r.push(0x69);
    r.push(0x6f);
    r.push(0x6e);
    proof {
        assert(r@ =~= lit_version());
    }
    r
}

/// Build the literal `policy`.
fn policy_lit_bytes() -> (r: Vec<u8>)
    ensures
        r@ == lit_policy(),
{
    let mut r: Vec<u8> = Vec::new();
    r.push(0x70);
    r.push(0x6f);
    r.push(0x6c);
    r.push(0x69);
    r.push(0x63);
    r.push(0x79);
    proof {
        assert(r@ =~= lit_policy());
    }
    r
}

/// Build the literal `data`.
fn data_lit_bytes() -> (r: Vec<u8>)
    ensures
        r@ == lit_data(),
{
    let mut r: Vec<u8> = Vec::new();
    r.push(0x64);
    r.push(0x61);
    r.push(0x74);
    r.push(0x61);
    proof {
        assert(r@ =~= lit_data());
    }
    r
}

/// Write an object key.
fn write_key(out: &mut Vec<u8>, name: &Vec<u8>)
    ensures
        final(out)@ == old(out)@ + ser_key(name@),
{
    write_str(out, name);
    out.push(0x3a);
    proof {
        assert(out@ =~= old(out)@ + ser_key(name@));
    }
}

/// Serialize one `Metadata21`.
fn write_metadata(out: &mut Vec<u8>, m: &Metadata21)
    ensures
        final(out)@ == old(out)@ + ser_metadata(*m),
{
    out.push(0x7b);
    let nk = name_lit_bytes();
    write_key(out, &nk);
    write_str(out, &m.name.bytes);
    out.push(0x2c);
    let vk = version_lit_bytes();
    write_key(out, &vk);
    write_str(out, &m.version);
    out.push(0x7d);
    proof {
        assert(out@ =~= old(out)@ + ser_metadata(*m));
    }
}

/// Serialize one map value.
fn write_value(out: &mut Vec<u8>, v: &DiskFilenameAndMetadata)
    ensures
        final(out)@ == old(out)@ + ser_value(*v),
{
    out.push(0x7b);
    let dk = disk_lit_bytes();
    write_key(out, &dk);
    write_str(out, &v.disk_filename);
    out.push(0x2c);
    let mk = metadata_lit_bytes();
    write_key(out, &mk);
    write_metadata(out, &v.metadata);
    out.push(0x7d);
    proof {
        assert(out@ =~= old(out)@ + ser_value(*v));
    }
}

/// Serialize one map entry.
fn write_entry(out: &mut Vec<u8>, e: &MapEntry)
    ensures
        final(out)@ == old(out)@ + ser_entry(*e),
{
    write_str(out, &e.key.raw);
    out.push(0x3a);
    write_value(out, &e.value);
    proof {
        assert(out@ =~= old(out)@ + ser_entry(*e));
    }
}

/// Serialize a map to its canonical sidecar bytes.
pub fn serialize_metadata21s(m: &Metadata21s) -> (r: Vec<u8>)
    ensures
        r@ == ser_map(*m),
{
    let mut out: Vec<u8> = Vec::new();
    out.push(0x7b);
    let mut i: usize = 0;
    while i < m.entries.len()
        invariant
            i <= m.entries@.len(),
            out@ == seq![0x7bu8] + ser_entries(m.entries@.subrange(0, i as int)),
        decreases m.entries@.len() - i,
    {
        if i > 0 {
            out.push(0x2c);
        }
        write_entry(&mut out, &m.entries[i]);
        proof {
            let pre = m.entries@.subrange(0, i as int);
            let post = m.entries@.subrange(0, i + 1);
            assert(post =~= pre.push(m.entries@[i as int]));
            if i == 0 {
                assert(ser_entries(post) == ser_entry(m.entries@[0]));
                assert(out@ =~= seq![0x7bu8] + ser_entries(post));
            } else {
                lemma_ser_entries_snoc(pre, m.entries@[i as int]);
                assert(out@ =~= seq![0x7bu8] + ser_entries(post));
            }
        }
        i += 1;
    }
    out.push(0x7d);
    proof {
        assert(m.entries@.subrange(0, m.entries@.len() as int) =~= m.entries@);
        assert(out@ =~= ser_map(*m));
    }
    out
}

/// Serialize a policy plus map into the HTTP envelope.
pub fn serialize_envelope(policy: &Vec<u8>, m: &Metadata21s) -> (r: Vec<u8>)
    ensures
        r@ == ser_envelope(policy@, *m),
{
    let mut out: Vec<u8> = Vec::new();
    out.push(0x7b);
    let pk = policy_lit_bytes();
    write_key(&mut out, &pk);
    write_str(&mut out, policy);
    out.push(0x2c);
    let dk = data_lit_bytes();
    write_key(&mut out, &dk);
    let map_bytes = serialize_metadata21s(m);
    push_all(&mut out, &map_bytes);
    out.push(0x7d);
    proof {
        assert(out@ =~= ser_envelope(policy@, *m));
    }
    out
}

/// Expect the literal `lit` at position `i`.
fn expect(v: &Vec<u8>, i: usize, lit: &Vec<u8>) -> (r: Option<usize>)
    requires
        i <= v@.len(),
    ensures
        r matches Some(j) ==> j == i + lit@.len() && j <= v@.len() && v@.subrange(
            i as int,
            j as int,
        ) == lit@,
        i + lit@.len() <= v@.len() && v@.subrange(i as int, i + lit@.len()) == lit@ ==> r
            is Some,
{
    if v.len() - i < lit.len() {
        return None;
    }
    let mut k: usize = 0;
    while k < lit.len()
        invariant
            k <= lit@.len(),
            i + lit@.len() <= v@.len(),
            forall|j: int| 0 <= j < k ==> v@[i + j] == lit@[j],
        decreases lit@.len() - k,
    {
        let n = v.len();
        assert(i + k < n);
        if v[i + k] != lit[k] {
            proof {
                assert(v@.subrange(i as int, i + lit@.len())[k as int] == v@[i + k]);
            }
            return None;
        }
        k += 1;
    }
    proof {
        assert(v@.subrange(i as int, i + lit@.len()) =~= lit@);
    }
    Some(i + lit.len())
}

/// A quoted JSON-safe string `s` stands at `[i, j)` of `v`.
pub open spec fn str_at(v: Seq<u8>, i: int, s: Seq<u8>, j: int) -> bool {
    &&& i + 2 <= j <= v.len()
    &&& json_safe(s)
    &&& v.subrange(i, j) == ser_str(s)
}

/// Parse a quoted string at position `i`. On success the consumed bytes are
/// exactly the string's serialization; parsing cannot miss a quoted string
/// that stands at `i`.
fn parse_string(v: &Vec<u8>, i: usize) -> (r: Option<(Vec<u8>, usize)>)
    requires
        i <= v@.len(),
    ensures
        r matches Some((s, j)) ==> str_at(v@, i as int, s@, j as int),
        forall|s: Seq<u8>, j: int|
            str_at(v@, i as int, s, j) ==> (r matches Some(p) && p.0@ == s && p.1 as int == j),
{
    if i >= v.len() || v[i] != 0x22 {
        proof {
            assert forall|s: Seq<u8>, j: int| str_at(v@, i as int, s, j) implies false by {
                assert(v@.subrange(i as int, j).len() == j - i);
                assert(s.len() == j - i - 2);
                assert(v@.subrange(i as int, j)[0] == v@[i as int]);
                assert(ser_str(s)[0] == 0x22);
            }
        }
        return None;
    }
    let mut s: Vec<u8> = Vec::new();
    let mut j: usize = i + 1;
    while j < v.len() && 0x20 <= v[j] && v[j] <= 0x7e && v[j] != 0x22 && v[j] != 0x5c
        invariant
            i + 1 <= j <= v@.len(),
            i < v@.len(),
            v@[i as int] == 0x22,
            s@ == v@.subrange(i + 1, j as int),
            json_safe(s@),
        decreases v@.len() - j,
    {
        s.push(v[j]);
        j += 1;
        proof {
            assert(s@ =~= v@.subrange(i + 1, j as int));
        }
    }
    proof {
        assert forall|s2: Seq<u8>, j2: int| str_at(v@, i as int, s2, j2) implies j2 - 1 == j
            as int && s2 =~= s@ by {
            assert(v@.subrange(i as int, j2).len() == j2 - i);
            assert(s2.len() == j2 - i - 2);
            assert forall|t: int| 0 <= t < s2.len() implies v@[i + 1 + t] == s2[t]
                && json_safe_byte(s2[t]) by {
                assert(v@.subrange(i as int, j2)[1 + t] == v@[i + 1 + t]);
                assert(ser_str(s2)[1 + t] == s2[t]);
            }
            assert(v@.subrange(i as int, j2)[j2 - i - 1] == v@[j2 - 1]);
            assert(ser_str(s2)[j2 - i - 1] == 0x22);
            if j2 - 1 < j as int {
                assert(v@[j2 - 1] == v@.subrange(i + 1, j as int)[j2 - 1 - i - 1]);
                assert(json_safe_byte(v@[j2 - 1]));
            }
            if j2 - 1 > j as int {
                assert(j < v@.len());
                assert(s2[j - i - 1] == v@[j as int]);
            }
        }
    }
    if j < v.len() && v[j] == 0x22 {
        proof {
            assert(v@.subrange(i as int, j + 1) =~= ser_str(s@));
        }
        return Some((s, j + 1));
    }
    proof {
        assert forall|s2: Seq<u8>, j2: int| str_at(v@, i as int, s2, j2) implies false by {
            assert(v@.subrange(i as int, j2).len() == j2 - i);
            assert(s2.len() == j2 - i - 2);
            assert(v@.subrange(i as int, j2)[j2 - i - 1] == v@[j2 - 1]);
            assert(ser_str(s2)[j2 - i - 1] == 0x22);
        }
    }
    None
}


/// Build `{"name":` as bytes.
fn metadata_head_bytes() -> (r: Vec<u8>)
    ensures
        r@ == seq![0x7bu8] + ser_key(lit_name()),
{
    let mut r: Vec<u8> = Vec::new();
    r.push(0x7b);
    r.push(0x22);
    let lit = name_lit_bytes();
    push_all(&mut r, &lit);
    r.push(0x22);
    r.push(0x3a);
    proof {
        assert(r@ =~= seq![0x7bu8] + ser_key(lit_name()));
    }
    r
}

/// Build `,"version":` as bytes.
fn metadata_mid_bytes() -> (r: Vec<u8>)
    ensures
        r@ == seq![0x2cu8] + ser_key(lit_version()),
{
    let mut r: Vec<u8> = Vec::new();
    r.push(0x2c);
    r.push(0x22);
    let lit = version_lit_bytes();
    push_all(&mut r, &lit);
    r.push(0x22);
    r.push(0x3a);
    proof {
        assert(r@ =~= seq![0x2cu8] + ser_key(lit_version()));
    }
    r
}

/// Build `{"disk_filename":` as bytes.
fn value_head_bytes() -> (r: Vec<u8>)
    ensures
        r@ == seq![0x7bu8] + ser_key(lit_disk()),
{
    let mut r: Vec<u8> = Vec::new();
    r.push(0x7b);
    r.push(0x22);
    let lit = disk_lit_bytes();
    push_all(&mut r, &lit);
    r.push(0x22);
    r.push(0x3a);
    proof {
        assert(r@ =~= seq![0x7bu8] + ser_key(lit_disk()));
    }
    r
}

/// Build `,"metadata":` as bytes.
fn value_mid_bytes() -> (r: Vec<u8>)
    ensures
        r@ == seq![0x2cu8] + ser_key(lit_metadata()),
{
    let mut r: Vec<u8> = Vec::new();
    r.push(0x2c);
    r.push(0x22);
    let lit = metadata_lit_bytes();
    push_all(&mut r, &lit);
    r.push(0x22);
    r.push(0x3a);
    proof {
        assert(r@ =~= seq![0x2cu8] + ser_key(lit_metadata()));
    }
    r
}

/// Build `{"policy":` as bytes.
fn envelope_head_bytes() -> (r: Vec<u8>)
    ensures
        r@ == seq![0x7bu8] + ser_key(lit_policy()),
{
    let mut r: Vec<u8> = Vec::new();
    r.push(0x7b);
    r.push(0x22);
    let lit = policy_lit_bytes();
    push_all(&mut r, &lit);
    r.push(0x22);
    r.push(0x3a);
    proof {
        assert(r@ =~= seq![0x7bu8] + ser_key(lit_policy()));
    }
    r
}

/// Build `,"data":` as bytes.
fn envelope_mid_bytes() -> (r: Vec<u8>)
    ensures
        r@ == seq![0x2cu8] + ser_key(lit_data()),
{
    let mut r: Vec<u8> = Vec::new();
    r.push(0x2c);
    r.push(0x22);
    let lit = data_lit_bytes();
    push_all(&mut r, &lit);
    r.push(0x22);
    r.push(0x3a);
    proof {
        assert(r@ =~= seq![0x2cu8] + ser_key(lit_data()));
    }
    r
}

/// Build `}` as bytes.
fn rbrace_bytes() -> (r: Vec<u8>)
    ensures
        r@ == seq![0x7du8],
{
    let mut r: Vec<u8> = Vec::new();
    r.push(0x7d);
    proof {
        assert(r@ =~= seq![0x7du8]);
    }
    r
}

/// A serialized `Metadata21` stands at `[i, j)` of `v`.
pub open spec fn metadata_at(v: Seq<u8>, i: int, m: Metadata21, j: int) -> bool {
    &&& 0 <= i <= j <= v.len()
    &&& m.wf()
    &&& v.subrange(i, j) == ser_metadata(m)
}

/// Decompose a serialized `Metadata21` into its pieces and their positions.
proof fn lemma_md_decompose(v: Seq<u8>, i: int, m: Metadata21, j: int)
    requires
        metadata_at(v, i, m, j),
    ensures
        j == i + 24 + m.name.bytes@.len() + m.version@.len(),
        v.subrange(i, i + 8) == seq![0x7bu8] + ser_key(lit_name()),
        str_at(v, i + 8, m.name.bytes@, i + 10 + m.name.bytes@.len()),
        v.subrange(i + 10 + m.name.bytes@.len(), i + 21 + m.name.bytes@.len()) == seq![0x2cu8]
            + ser_key(lit_version()),
        str_at(
            v,
            i + 21 + m.name.bytes@.len(),
            m.version@,
            i + 23 + m.name.bytes@.len() + m.version@.len(),
        ),
        v.subrange(j - 1, j) == seq![0x7du8],
{
    let nl = m.name.bytes@.len() as int;
    let vl = m.version@.len() as int;
    let sm = ser_metadata(m);
    let p1 = seq![0x7bu8] + ser_key(lit_name());
    let p2 = ser_str(m.name.bytes@);
    let p3 = seq![0x2cu8] + ser_key(lit_version());
    let p4 = ser_str(m.version@);
    let p5 = seq![0x7du8];
    assert(p1.len() == 8 && p2.len() == 2 + nl && p3.len() == 11 && p4.len() == 2 + vl
        && p5.len() == 1);
    assert(sm =~= p1 + (p2 + (p3 + (p4 + p5))));
    assert(sm.len() == 24 + nl + vl);
    assert(v.subrange(i, j).len() == j - i);

    let a = i + 8;
    let b = a + 2 + nl;
    let c = b + 11;
    let d = c + 2 + vl;
    assert(v.subrange(i, j) =~= v.subrange(i, a) + v.subrange(a, j));
    crate::text::lemma_concat_cancel(v.subrange(i, a), v.subrange(a, j), p1, p2 + (p3 + (p4 + p5)));
    assert(v.subrange(a, j) =~= v.subrange(a, b) + v.subrange(b, j));
    crate::text::lemma_concat_cancel(v.subrange(a, b), v.subrange(b, j), p2, p3 + (p4 + p5));
    assert(v.subrange(b, j) =~= v.subrange(b, c) + v.subrange(c, j));
    crate::text::lemma_concat_cancel(v.subrange(b, c), v.subrange(c, j), p3, p4 + p5);
    assert(v.subrange(c, j) =~= v.subrange(c, d) + v.subrange(d, j));
    crate::text::lemma_concat_cancel(v.subrange(c, d), v.subrange(d, j), p4, p5);
}


/// Parse one serialized `Metadata21` at position `i`. Parsing cannot miss
/// one that stands at `i`.
fn parse_metadata_obj(v: &Vec<u8>, i: usize) -> (r: Option<(Metadata21, usize)>)
    requires
        i <= v@.len(),
    ensures
        r matches Some((m, j)) ==> i < j <= v@.len() && m.wf() && v@.subrange(i as int, j as int)
            == ser_metadata(m),
        forall|m2: Metadata21, j2: int|
            metadata_at(v@, i as int, m2, j2) ==> (r matches Some(p) && p.1 as int == j2),
{
    let head = metadata_head_bytes();
    assert(head@.len() == 8);
    let a = match expect(v, i, &head) {
        Some(a) => a,
        None => {
            proof {
                assert forall|m2: Metadata21, j2: int| metadata_at(v@, i as int, m2, j2)
                    implies false by {
                    lemma_md_decompose(v@, i as int, m2, j2);
                }
            }
            return None;
        },
    };
    let (name_raw, b) = match parse_string(v, a) {
        Some(p) => p,
        None => {
            proof {
                assert forall|m2: Metadata21, j2: int| metadata_at(v@, i as int, m2, j2)
                    implies false by {
                    lemma_md_decompose(v@, i as int, m2, j2);
                }
            }
            return None;
        },
    };
    let mid = metadata_mid_bytes();
    assert(mid@.len() == 11);
    let c = match expect(v, b, &mid) {
        Some(c) => c,
        None => {
            proof {
                assert forall|m2: Metadata21, j2: int| metadata_at(v@, i as int, m2, j2)
                    implies false by {
                    lemma_md_decompose(v@, i as int, m2, j2);
                    assert(b as int == i + 10 + m2.name.bytes@.len());
                }
            }
            return None;
        },
    };
    let (version, d) = match parse_string(v, c) {
        Some(p) => p,
        None => {
            proof {
                assert forall|m2: Metadata21, j2: int| metadata_at(v@, i as int, m2, j2)
                    implies false by {
                    lemma_md_decompose(v@, i as int, m2, j2);
                    assert(b as int == i + 10 + m2.name.bytes@.len());
                }
            }
            return None;
        },
    };
    let rb = rbrace_bytes();
    assert(rb@.len() == 1);
    let j = match expect(v, d, &rb) {
        Some(j) => j,
        None => {
            proof {
                assert forall|m2: Metadata21, j2: int| metadata_at(v@, i as int, m2, j2)
                    implies false by {
                    lemma_md_decompose(v@, i as int, m2, j2);
                    assert(b as int == i + 10 + m2.name.bytes@.len());
                    assert(d as int == i + 23 + m2.name.bytes@.len() + m2.version@.len());
                }
            }
            return None;
        },
    };
    let pn = PackageName::new(&name_raw);
    if !bytes_eq(&pn.bytes, &name_raw) {
        proof {
            assert forall|m2: Metadata21, j2: int| metadata_at(v@, i as int, m2, j2)
                implies false by {
                lemma_md_decompose(v@, i as int, m2, j2);
                assert(name_raw@ == m2.name.bytes@);
            }
        }
        return None;
    }
    let m = Metadata21 { name: PackageName { bytes: name_raw }, version };
    proof {
        assert(v@.subrange(i as int, j as int) =~= v@.subrange(i as int, a as int) + v@.subrange(
            a as int,
            b as int,
        ) + v@.subrange(b as int, c as int) + v@.subrange(c as int, d as int) + v@.subrange(
            d as int,
            j as int,
        ));
        assert(v@.subrange(i as int, j as int) =~= ser_metadata(m));
        assert forall|m2: Metadata21, j2: int| metadata_at(v@, i as int, m2, j2) implies j
            as int == j2 by {
            lemma_md_decompose(v@, i as int, m2, j2);
            assert(b as int == i + 10 + m2.name.bytes@.len());
            assert(d as int == i + 23 + m2.name.bytes@.len() + m2.version@.len());
        }
    }
    Some((m, j))
}

/// A serialized map value stands at `[i, j)` of `v`.
pub open spec fn value_at(v: Seq<u8>, i: int, val: DiskFilenameAndMetadata, j: int) -> bool {
    &&& 0 <= i <= j <= v.len()
    &&& val.wf()
    &&& v.subrange(i, j) == ser_value(val)
}

/// Decompose a serialized map value into its pieces and their positions.
proof fn lemma_val_decompose(v: Seq<u8>, i: int, val: DiskFilenameAndMetadata, j: int)
    requires
        value_at(v, i, val, j),
    ensures
        j == i + 56 + val.disk_filename@.len() + val.metadata.name.bytes@.len()
            + val.metadata.version@.len(),
        v.subrange(i, i + 17) == seq![0x7bu8] + ser_key(lit_disk()),
        str_at(v, i + 17, val.disk_filename@, i + 19 + val.disk_filename@.len()),
        v.subrange(i + 19 + val.disk_filename@.len(), i + 31 + val.disk_filename@.len())
            == seq![0x2cu8] + ser_key(lit_metadata()),
        metadata_at(v, i + 31 + val.disk_filename@.len(), val.metadata, j - 1),
        v.subrange(j - 1, j) == seq![0x7du8],
{
    let dl = val.disk_filename@.len() as int;
    let ml = ser_metadata(val.metadata).len() as int;
    let sv = ser_value(val);
    let q1 = seq![0x7bu8] + ser_key(lit_disk());
    let q2 = ser_str(val.disk_filename@);
    let q3 = seq![0x2cu8] + ser_key(lit_metadata());
    let q4 = ser_metadata(val.metadata);
    let q5 = seq![0x7du8];
    assert(q1.len() == 17 && q2.len() == 2 + dl && q3.len() == 12 && q5.len() == 1);
    assert(ml == 24 + val.metadata.name.bytes@.len() + val.metadata.version@.len());
    assert(sv =~= q1 + (q2 + (q3 + (q4 + q5))));
    assert(sv.len() == 32 + dl + ml);
    assert(v.subrange(i, j).len() == j - i);

    let a = i + 17;
    let b = a + 2 + dl;
    let c = b + 12;
    let d = c + ml;
    assert(v.subrange(i, j) =~= v.subrange(i, a) + v.subrange(a, j));
    crate::text::lemma_concat_cancel(v.subrange(i, a), v.subrange(a, j), q1, q2 + (q3 + (q4 + q5)));
    assert(v.subrange(a, j) =~= v.subrange(a, b) + v.subrange(b, j));
    crate::text::lemma_concat_cancel(v.subrange(a, b), v.subrange(b, j), q2, q3 + (q4 + q5));
    assert(v.subrange(b, j) =~= v.subrange(b, c) + v.subrange(c, j));
    crate::text::lemma_concat_cancel(v.subrange(b, c), v.subrange(c, j), q3, q4 + q5);
    assert(v.subrange(c, j) =~= v.subrange(c, d) + v.subrange(d, j));
    crate::text::lemma_concat_cancel(v.subrange(c, d), v.subrange(d, j), q4, q5);
}

/// Parse one serialized map value at position `i`. Parsing cannot miss one
/// that stands at `i`.
fn parse_value_obj(v: &Vec<u8>, i: usize) -> (r: Option<(DiskFilenameAndMetadata, usize)>)
    requires
        i <= v@.len(),
    ensures
        r matches Some((val, j)) ==> i < j <= v@.len() && val.wf() && v@.subrange(
            i as int,
            j as int,
        ) == ser_value(val),
        forall|val2: DiskFilenameAndMetadata, j2: int|
            value_at(v@, i as int, val2, j2) ==> (r matches Some(p) && p.1 as int == j2),
{
    let head = value_head_bytes();
    assert(head@.len() == 17);
    let a = match expect(v, i, &head) {
        Some(a) => a,
        None => {
            proof {
                assert forall|val2: DiskFilenameAndMetadata, j2: int|
                    value_at(v@, i as int, val2, j2) implies false by {
                    lemma_val_decompose(v@, i as int, val2, j2);
                }
            }
            return None;
        },
    };
    let (disk, b) = match parse_string(v, a) {
        Some(p) => p,
        None => {
            proof {
                assert forall|val2: DiskFilenameAndMetadata, j2: int|
                    value_at(v@, i as int, val2, j2) implies false by {
                    lemma_val_decompose(v@, i as int, val2, j2);
                }
            }
            return None;
        },
    };
    let mid = value_mid_bytes();
    assert(mid@.len() == 12);
    let c = match expect(v, b, &mid) {
        Some(c) => c,
        None => {
            proof {
                assert forall|val2: DiskFilenameAndMetadata, j2: int|
                    value_at(v@, i as int, val2, j2) implies false by {
                    lemma_val_decompose(v@, i as int, val2, j2);
                    assert(b as int == i + 19 + val2.disk_filename@.len());
                }
            }
            return None;
        },
    };
    let (metadata, d) = match parse_metadata_obj(v, c) {
        Some(p) => p,
        None => {
            proof {
                assert forall|val2: DiskFilenameAndMetadata, j2: int|
                    value_at(v@, i as int, val2, j2) implies false by {
                    lemma_val_decompose(v@, i as int, val2, j2);
                    assert(b as int == i + 19 + val2.disk_filename@.len());
                }
            }
            return None;
        },
    };
    let rb = rbrace_bytes();
    assert(rb@.len() == 1);
    let j = match expect(v, d, &rb) {
        Some(j) => j,
        None => {
            proof {
                assert forall|val2: DiskFilenameAndMetadata, j2: int|
                    value_at(v@, i as int, val2, j2) implies false by {
                    lemma_val_decompose(v@, i as int, val2, j2);
                    assert(b as int == i + 19 + val2.disk_filename@.len());
                    assert(d as int == j2 - 1);
                }
            }
            return None;
        },
    };
    let val = DiskFilenameAndMetadata { disk_filename: disk, metadata };
    proof {
        assert(v@.subrange(i as int, j as int) =~= v@.subrange(i as int, a as int) + v@.subrange(
            a as int,
            b as int,
        ) + v@.subrange(b as int, c as int) + v@.subrange(c as int, d as int) + v@.subrange(
            d as int,
            j as int,
        ));
        assert(v@.subrange(i as int, j as int) =~= ser_value(val));
        assert forall|val2: DiskFilenameAndMetadata, j2: int| value_at(v@, i as int, val2, j2)
            implies j as int == j2 by {
            lemma_val_decompose(v@, i as int, val2, j2);
            assert(b as int == i + 19 + val2.disk_filename@.len());
            assert(d as int == j2 - 1);
        }
    }
    Some((val, j))
}

/// A serialized map entry stands at `[i, j)` of `v`.
pub open spec fn entry_at(v: Seq<u8>, i: int, e: MapEntry, j: int) -> bool {
    &&& 0 <= i <= j <= v.len()
    &&& e.key.wf()
    &&& e.value.wf()
    &&& v.subrange(i, j) == ser_entry(e)
}

/// Decompose a serialized map entry into its pieces and their positions.
proof fn lemma_entry_decompose(v: Seq<u8>, i: int, e: MapEntry, j: int)
    requires
        entry_at(v, i, e, j),
    ensures
        str_at(v, i, e.key.raw@, i + 2 + e.key.raw@.len()),
        v.subrange(i + 2 + e.key.raw@.len(), i + 3 + e.key.raw@.len()) == seq![0x3au8],
        value_at(v, i + 3 + e.key.raw@.len(), e.value, j),
{
    let rl = e.key.raw@.len() as int;
    let vl = ser_value(e.value).len() as int;
    let se = ser_entry(e);
    let e1 = ser_str(e.key.raw@);
    let e2 = seq![0x3au8];
    let e3 = ser_value(e.value);
    assert(e1.len() == 2 + rl && e2.len() == 1);
    assert(se =~= e1 + (e2 + e3));
    assert(v.subrange(i, j).len() == j - i);
    crate::filename::lemma_wheel_charset_json_safe(e.key.raw@);

    let a = i + 2 + rl;
    let b = a + 1;
    assert(v.subrange(i, j) =~= v.subrange(i, a) + v.subrange(a, j));
    crate::text::lemma_concat_cancel(v.subrange(i, a), v.subrange(a, j), e1, e2 + e3);
    assert(v.subrange(a, j) =~= v.subrange(a, b) + v.subrange(b, j));
    crate::text::lemma_concat_cancel(v.subrange(a, b), v.subrange(b, j), e2, e3);
}

/// Parse one map entry (quoted filename, colon, value) at position `i`.
/// Parsing cannot miss an entry that stands at `i`, and reads off exactly
/// its key.
fn parse_entry(v: &Vec<u8>, i: usize) -> (r: Option<(MapEntry, usize)>)
    requires
        i <= v@.len(),
    ensures
        r matches Some((e, j)) ==> i < j <= v@.len() && e.key.wf() && e.value.wf() && v@.subrange(
            i as int,
            j as int,
        ) == ser_entry(e),
        forall|e2: MapEntry, j2: int|
            entry_at(v@, i as int, e2, j2) ==> (r matches Some(p) && p.1 as int == j2
                && p.0.key.raw@ == e2.key.raw@),
{
    let (raw, a) = match parse_string(v, i) {
        Some(p) => p,
        None => {
            proof {
                assert forall|e2: MapEntry, j2: int| entry_at(v@, i as int, e2, j2)
                    implies false by {
                    lemma_entry_decompose(v@, i as int, e2, j2);
                }
            }
            return None;
        },
    };
    let key = match WheelFilename::parse(&raw) {
        Some(f) => f,
        None => {
            proof {
                assert forall|e2: MapEntry, j2: int| entry_at(v@, i as int, e2, j2)
                    implies false by {
                    lemma_entry_decompose(v@, i as int, e2, j2);
                    assert(raw@ == e2.key.raw@);
                }
            }
            return None;
        },
    };
    if a >= v.len() || v[a] != 0x3a {
        proof {
            assert forall|e2: MapEntry, j2: int| entry_at(v@, i as int, e2, j2) implies false by {
                lemma_entry_decompose(v@, i as int, e2, j2);
                assert(a as int == i + 2 + e2.key.raw@.len());
                assert(v@.subrange(a as int, a + 1)[0] == v@[a as int]);
            }
        }
        return None;
    }
    let b = a + 1;
    let (value, j) = match parse_value_obj(v, b) {
        Some(p) => p,
        None => {
            proof {
                assert forall|e2: MapEntry, j2: int| entry_at(v@, i as int, e2, j2)
                    implies false by {
                    lemma_entry_decompose(v@, i as int, e2, j2);
                    assert(a as int == i + 2 + e2.key.raw@.len());
                }
            }
            return None;
        },
    };
    let e = MapEntry { key, value };
    proof {
        assert(v@.subrange(a as int, b as int) =~= seq![0x3au8]);
        assert(v@.subrange(i as int, j as int) =~= v@.subrange(i as int, a as int) + v@.subrange(
            a as int,
            b as int,
        ) + v@.subrange(b as int, j as int));
        assert(v@.subrange(i as int, j as int) =~= ser_entry(e));
        assert forall|e2: MapEntry, j2: int| entry_at(v@, i as int, e2, j2) implies j as int
            == j2 && e.key.raw@ == e2.key.raw@ by {
            lemma_entry_decompose(v@, i as int, e2, j2);
            assert(a as int == i + 2 + e2.key.raw@.len());
        }
    }
    Some((e, j))
}

/// A serialized map stands at `[i, j)` of `v`.
pub open spec fn map_at(v: Seq<u8>, i: int, m: Metadata21s, j: int) -> bool {
    &&& 0 <= i <= j <= v.len()
    &&& m.wf()
    &&& v.subrange(i, j) == ser_map(m)
}

/// The separator written before entry `k`: a comma, except before the
/// first entry.
pub open spec fn sep_of(s: Seq<MapEntry>, k: int) -> Seq<u8> {
    if 0 < k < s.len() {
        seq![0x2cu8]
    } else {
        Seq::empty()
    }
}

/// The entry list's serialization splits at every entry boundary.
proof fn lemma_ser_entries_split(s: Seq<MapEntry>, k: int)
    requires
        0 <= k <= s.len(),
    ensures
        ser_entries(s) == ser_entries(s.subrange(0, k)) + sep_of(s, k) + ser_entries(
            s.subrange(k, s.len() as int),
        ),
    decreases s.len(),
{
    if k == 0 {
        assert(s.subrange(0, 0) =~= Seq::<MapEntry>::empty());
        assert(s.subrange(0, s.len() as int) =~= s);
        assert(ser_entries(s.subrange(0, 0)) + sep_of(s, 0) + ser_entries(
            s.subrange(0, s.len() as int),
        ) =~= ser_entries(s));
    } else if k == 1 {
        let p = s.subrange(0, 1);
        assert(p.len() == 1 && p[0] == s[0]);
        assert(ser_entries(p) == ser_entry(s[0]));
        if s.len() == 1 {
            assert(s.subrange(1, s.len() as int).len() == 0);
            assert(ser_entries(p) + sep_of(s, 1) + ser_entries(s.subrange(1, s.len() as int))
                =~= ser_entries(s));
        } else {
            assert(ser_entries(s) == ser_entry(s[0]) + seq![0x2cu8] + ser_entries(
                s.subrange(1, s.len() as int),
            ));
            assert(ser_entries(p) + sep_of(s, 1) + ser_entries(s.subrange(1, s.len() as int))
                =~= ser_entries(s));
        }
    } else {
        let t = s.subrange(1, s.len() as int);
        lemma_ser_entries_split(t, k - 1);
        assert(ser_entries(s) == ser_entry(s[0]) + seq![0x2cu8] + ser_entries(t));
        let p = s.subrange(0, k);
        assert(p.len() == k >= 2);
        assert(p[0] == s[0]);
        assert(p.subrange(1, k) =~= t.subrange(0, k - 1));
        assert(ser_entries(p) == ser_entry(s[0]) + seq![0x2cu8] + ser_entries(
            t.subrange(0, k - 1),
        ));
        assert(t.subrange(k - 1, t.len() as int) =~= s.subrange(k, s.len() as int));
        assert(sep_of(t, k - 1) == sep_of(s, k));
        assert(ser_entry(s[0]) + seq![0x2cu8] + (ser_entries(t.subrange(0, k - 1)) + sep_of(
            t,
            k - 1,
        ) + ser_entries(t.subrange(k - 1, t.len() as int))) =~= (ser_entry(s[0]) + seq![0x2cu8]
            + ser_entries(t.subrange(0, k - 1))) + sep_of(s, k) + ser_entries(
            s.subrange(k, s.len() as int),
        ));
    }
}

/// Decompose a serialized map into the brace bytes and the entry bytes.
proof fn lemma_map_decompose(v: Seq<u8>, i: int, m: Metadata21s, j: int)
    requires
        map_at(v, i, m, j),
    ensures
        j == i + 2 + ser_entries(m.entries@).len(),
        v.subrange(i, i + 1) == seq![0x7bu8],
        v.subrange(i + 1, j - 1) == ser_entries(m.entries@),
        v.subrange(j - 1, j) == seq![0x7du8],
{
    let se = ser_entries(m.entries@);
    assert(ser_map(m) =~= seq![0x7bu8] + (se + seq![0x7du8]));
    assert(v.subrange(i, j).len() == j - i);
    assert(v.subrange(i, j) =~= v.subrange(i, i + 1) + v.subrange(i + 1, j));
    crate::text::lemma_concat_cancel(
        v.subrange(i, i + 1),
        v.subrange(i + 1, j),
        seq![0x7bu8],
        se + seq![0x7du8],
    );
    assert(v.subrange(i + 1, j) =~= v.subrange(i + 1, j - 1) + v.subrange(j - 1, j));
    crate::text::lemma_concat_cancel(
        v.subrange(i + 1, j - 1),
        v.subrange(j - 1, j),
        se,
        seq![0x7du8],
    );
}

/// Entry `k` of a serialized map stands at its computed position, preceded
/// by its separator.
#[verifier::rlimit(60)]
proof fn lemma_map_entry_at(v: Seq<u8>, i: int, m: Metadata21s, j: int, k: int)
    requires
        map_at(v, i, m, j),
        0 <= k < m.entries@.len(),
    ensures
        ({
            let s = m.entries@;
            let base = i + 1 + ser_entries(s.subrange(0, k)).len() + sep_of(s, k).len();
            &&& entry_at(v, base, s[k], base + ser_entry(s[k]).len())
            &&& (k > 0 ==> v.subrange(base - 1, base) == seq![0x2cu8])
        }),
{
    let s = m.entries@;
    lemma_map_decompose(v, i, m, j);
    lemma_ser_entries_split(s, k);
    let pl = ser_entries(s.subrange(0, k)).len() as int;
    let sl = sep_of(s, k).len() as int;
    let base = i + 1 + pl + sl;
    let t = s.subrange(k, s.len() as int);
    assert(t[0] == s[k]);
    assert(t.len() >= 1);
    let rest = if t.len() == 1 { Seq::<u8>::empty() } else {
        seq![0x2cu8] + ser_entries(t.subrange(1, t.len() as int))
    };
    assert(ser_entries(t) =~= ser_entry(s[k]) + rest);
    assert(v.subrange(i + 1, j - 1) =~= ser_entries(s.subrange(0, k)) + (sep_of(s, k) + (
    ser_entry(s[k]) + rest)));
    assert(v.subrange(i + 1, j - 1) =~= v.subrange(i + 1, i + 1 + pl) + v.subrange(
        i + 1 + pl,
        j - 1,
    ));
    crate::text::lemma_concat_cancel(
        v.subrange(i + 1, i + 1 + pl),
        v.subrange(i + 1 + pl, j - 1),
        ser_entries(s.subrange(0, k)),
        sep_of(s, k) + (ser_entry(s[k]) + rest),
    );
    assert(v.subrange(i + 1 + pl, j - 1) =~= v.subrange(i + 1 + pl, base) + v.subrange(
        base,
        j - 1,
    ));
    crate::text::lemma_concat_cancel(
        v.subrange(i + 1 + pl, base),
        v.subrange(base, j - 1),
        sep_of(s, k),
        ser_entry(s[k]) + rest,
    );
    assert(v.subrange(base, j - 1) =~= v.subrange(base, base + ser_entry(s[k]).len())
        + v.subrange(base + ser_entry(s[k]).len(), j - 1));
    crate::text::lemma_concat_cancel(
        v.subrange(base, base + ser_entry(s[k]).len()),
        v.subrange(base + ser_entry(s[k]).len(), j - 1),
        ser_entry(s[k]),
        rest,
    );
    assert(s[k].key.wf() && s[k].value.wf());
    if k > 0 {
        assert(v.subrange(i + 1 + pl, base) == seq![0x2cu8]);
        assert(v.subrange(base - 1, base) =~= v.subrange(i + 1 + pl, base));
    }
}

/// Parse a serialized map at position `i`. Accepts exactly the canonical
/// form — the returned map re-serializes to the consumed bytes — and
/// cannot miss a serialized map that stands at `i`.
#[verifier::rlimit(100)]
fn parse_map(v: &Vec<u8>, i: usize) -> (r: Option<(Metadata21s, usize)>)
    requires
        i <= v@.len(),
    ensures
        r matches Some((m, j)) ==> i < j <= v@.len() && m.wf() && v@.subrange(i as int, j as int)
            == ser_map(m),
        forall|m2: Metadata21s, j2: int|
            map_at(v@, i as int, m2, j2) ==> (r matches Some(p) && p.1 as int == j2),
{
    if i >= v.len() || v[i] != 0x7b {
        proof {
            assert forall|m2: Metadata21s, j2: int| map_at(v@, i as int, m2, j2)
                implies false by {
                lemma_map_decompose(v@, i as int, m2, j2);
                assert(v@.subrange(i as int, i + 1)[0] == v@[i as int]);
            }
        }
        return None;
    }
    let mut m = Metadata21s::new();
    let mut pos: usize = i + 1;
    if pos < v.len() && v[pos] == 0x7d {
        proof {
            assert(ser_entries(m.entries@) =~= Seq::<u8>::empty());
            assert(v@.subrange(i as int, pos + 1) =~= ser_map(m));
            assert forall|m2: Metadata21s, j2: int| map_at(v@, i as int, m2, j2) implies pos + 1
                == j2 by {
                lemma_map_decompose(v@, i as int, m2, j2);
                if m2.entries@.len() > 0 {
                    lemma_map_entry_at(v@, i as int, m2, j2, 0);
                    assert(v@.subrange(i + 1, i + 1 + ser_entry(m2.entries@[0]).len())[0]
                        == v@[i + 1]);
                    assert(ser_entry(m2.entries@[0])[0] == 0x22);
                }
            }
        }
        return Some((m, pos + 1));
    }
    proof {
        assert forall|m2: Metadata21s, j2: int| map_at(v@, i as int, m2, j2)
            implies m2.entries@.len() > 0 && entry_at(
            v@,
            i + 1,
            m2.entries@[0],
            i + 1 + ser_entry(m2.entries@[0]).len(),
        ) by {
            lemma_map_decompose(v@, i as int, m2, j2);
            if m2.entries@.len() == 0 {
                assert(j2 == i + 2);
                assert(v@.subrange(j2 - 1, j2)[0] == v@[i + 1]);
            } else {
                lemma_map_entry_at(v@, i as int, m2, j2, 0);
                assert(ser_entries(m2.entries@.subrange(0, 0)).len() == 0);
            }
        }
    }
    let (e0, a) = match parse_entry(v, pos) {
        Some(p) => p,
        None => { return None },
    };
    m.entries.push(e0);
    pos = a;
    proof {
        assert(m.entries@ =~= seq![e0]);
        assert(ser_entries(m.entries@) == ser_entry(e0));
        assert(v@.subrange(i + 1, pos as int) =~= ser_entries(m.entries@));
        assert forall|m2: Metadata21s, j2: int| #[trigger] map_at(v@, i as int, m2, j2)
            implies m.entries@.len() <= m2.entries@.len() && (forall|t: int|
            0 <= t < m.entries@.len() ==> (#[trigger] m.entries@[t]).key.raw@
                == m2.entries@[t].key.raw@) && pos as int == i + 1 + ser_entries(
            m2.entries@.subrange(0, m.entries@.len() as int),
        ).len() by {
            assert(entry_at(
                v@,
                i + 1,
                m2.entries@[0],
                i + 1 + ser_entry(m2.entries@[0]).len(),
            ));
            assert(e0.key.raw@ == m2.entries@[0].key.raw@);
            assert(a as int == i + 1 + ser_entry(m2.entries@[0]).len());
            let p1 = m2.entries@.subrange(0, 1);
            assert(p1.len() == 1 && p1[0] == m2.entries@[0]);
            assert(ser_entries(p1) == ser_entry(m2.entries@[0]));
        }
    }
    loop
        invariant
            i < v@.len(),
            i + 1 <= pos <= v@.len(),
            m.entries@.len() >= 1,
            m.wf(),
            v@.subrange(i + 1, pos as int) == ser_entries(m.entries@),
            v@[i as int] == 0x7b,
            forall|m2: Metadata21s, j2: int| #[trigger]
                map_at(v@, i as int, m2, j2) ==> m.entries@.len() <= m2.entries@.len() && (
                forall|t: int|
                    0 <= t < m.entries@.len() ==> (#[trigger] m.entries@[t]).key.raw@
                        == m2.entries@[t].key.raw@) && pos as int == i + 1 + ser_entries(
                    m2.entries@.subrange(0, m.entries@.len() as int),
                ).len(),
        decreases v@.len() - pos,
    {
        let ghost k = m.entries@.len() as int;
        let ghost pos0 = pos as int;
        proof {
            assert forall|m2: Metadata21s, j2: int| #[trigger] map_at(v@, i as int, m2, j2)
                implies (k < m2.entries@.len() ==> v@[pos as int] == 0x2c && entry_at(
                v@,
                pos + 1,
                m2.entries@[k],
                pos + 1 + ser_entry(m2.entries@[k]).len(),
            )) && (k == m2.entries@.len() ==> pos as int == j2 - 1 && v@[pos as int]
                == 0x7d) by {
                lemma_map_decompose(v@, i as int, m2, j2);
                if k < m2.entries@.len() {
                    lemma_map_entry_at(v@, i as int, m2, j2, k);
                    assert(sep_of(m2.entries@, k) =~= seq![0x2cu8]);
                    assert(v@.subrange(pos as int, pos + 1)[0] == v@[pos as int]);
                } else {
                    lemma_ser_entries_split(m2.entries@, k);
                    assert(m2.entries@.subrange(0, k) =~= m2.entries@);
                    assert(v@.subrange(j2 - 1, j2)[0] == v@[pos as int]);
                }
            }
        }
        if pos < v.len() && v[pos] == 0x2c {
            let b = pos + 1;
            let (e, c) = match parse_entry(v, b) {
                Some(p) => p,
                None => {
                    proof {
                        assert forall|m2: Metadata21s, j2: int| map_at(v@, i as int, m2, j2)
                            implies false by {
                            if k == m2.entries@.len() {
                                assert(v@[pos as int] == 0x7d);
                            }
                        }
                    }
                    return None;
                },
            };
            if m.contains_key(&e.key.raw) {
                proof {
                    assert forall|m2: Metadata21s, j2: int| map_at(v@, i as int, m2, j2)
                        implies false by {
                        if k == m2.entries@.len() {
                            assert(v@[pos as int] == 0x7d);
                        } else {
                            assert(e.key.raw@ == m2.entries@[k].key.raw@);
                            let w = choose|w: int|
                                0 <= w < m.entries@.len() && (#[trigger] m.entries@[w]).key.raw@
                                    == e.key.raw@;
                            assert(m2.entries@[w].key.raw@ == m2.entries@[k].key.raw@);
                        }
                    }
                }
                return None;
            }
            proof {
                lemma_ser_entries_snoc(m.entries@, e);
                assert(v@.subrange(pos as int, b as int) =~= seq![0x2cu8]);
                assert(v@.subrange(i + 1, c as int) =~= v@.subrange(i + 1, pos as int)
                    + v@.subrange(pos as int, b as int) + v@.subrange(b as int, c as int));
                assert(v@.subrange(i + 1, c as int) =~= ser_entries(m.entries@.push(e)));
            }
            let ghost old_entries = m.entries@;
            m.entries.push(e);
            pos = c;
            proof {
                assert(m.entries@ =~= old_entries.push(e));
                assert forall|x: int, y: int| 0 <= x < y < m.entries@.len() implies (
                #[trigger] m.entries@[x]).key.raw@ != (#[trigger] m.entries@[y]).key.raw@ by {
                    if y == m.entries@.len() - 1 {
                        assert(old_entries[x].key.raw@ != e.key.raw@);
                    }
                }
                assert forall|m2: Metadata21s, j2: int| #[trigger] map_at(v@, i as int, m2, j2)
                    implies m.entries@.len() <= m2.entries@.len() && (forall|t: int|
                    0 <= t < m.entries@.len() ==> (#[trigger] m.entries@[t]).key.raw@
                        == m2.entries@[t].key.raw@) && pos as int == i + 1 + ser_entries(
                    m2.entries@.subrange(0, m.entries@.len() as int),
                ).len() by {
                    if k == m2.entries@.len() {
                        assert(v@[pos0] == 0x7d);
                        assert(false);
                    }
                    assert(e.key.raw@ == m2.entries@[k].key.raw@);
                    assert(c as int == pos0 + 1 + ser_entry(m2.entries@[k]).len());
                    let pk = m2.entries@.subrange(0, k);
                    let pk1 = m2.entries@.subrange(0, k + 1);
                    assert(pk1 =~= pk.push(m2.entries@[k]));
                    lemma_ser_entries_snoc(pk, m2.entries@[k]);
                    assert(pk.len() >= 1);
                    assert forall|t: int| 0 <= t < m.entries@.len() implies (
                    #[trigger] m.entries@[t]).key.raw@ == m2.entries@[t].key.raw@ by {
                        if t < k {
                            assert(m.entries@[t] == old_entries[t]);
                        }
                    }
                }
            }
        } else if pos < v.len() && v[pos] == 0x7d {
            proof {
                assert(v@.subrange(i as int, pos + 1) =~= seq![0x7bu8] + v@.subrange(
                    i + 1,
                    pos as int,
                ) + seq![0x7du8]);
                assert(v@.subrange(i as int, pos + 1) =~= ser_map(m));
                assert forall|m2: Metadata21s, j2: int| map_at(v@, i as int, m2, j2) implies pos
                    + 1 == j2 by {
                    if k < m2.entries@.len() {
                        assert(v@[pos as int] == 0x2c);
                    }
                }
            }
            return Some((m, pos + 1));
        } else {
            proof {
                assert forall|m2: Metadata21s, j2: int| map_at(v@, i as int, m2, j2)
                    implies false by {
                    if k < m2.entries@.len() {
                        assert(v@[pos as int] == 0x2c);
                    } else {
                        assert(v@[pos as int] == 0x7d);
                    }
                    assert(pos < v@.len());
                }
            }
            return None;
        }
    }
}

/// Read a map out of its canonical sidecar bytes. Anything this accepts
/// serializes back to exactly the input, and the canonical bytes of any
/// well-formed map are accepted.
pub fn deserialize_metadata21s(v: &Vec<u8>) -> (r: Option<Metadata21s>)
    ensures
        r matches Some(m) ==> m.wf() && ser_map(m) == v@,
        forall|m2: Metadata21s| m2.wf() && ser_map(m2) == v@ ==> r is Some,
{
    proof {
        assert forall|m2: Metadata21s| m2.wf() && ser_map(m2) == v@ implies map_at(
            v@,
            0,
            m2,
            v@.len() as int,
        ) by {
            assert(v@.subrange(0, v@.len() as int) =~= v@);
        }
    }
    match parse_map(v, 0) {
        Some((m, j)) => {
            if j == v.len() {
                proof {
                    assert(v@.subrange(0, v@.len() as int) =~= v@);
                }
                Some(m)
            } else {
                None
            }
        },
        None => None,
    }
}

/// The canonical envelope of `(p, m)` fills `v` exactly.
pub open spec fn envelope_at(v: Seq<u8>, p: Seq<u8>, m: Metadata21s) -> bool {
    &&& json_safe(p)
    &&& m.wf()
    &&& ser_envelope(p, m) == v
}

/// Decompose a serialized envelope into its pieces and their positions.
proof fn lemma_env_decompose(v: Seq<u8>, p: Seq<u8>, m: Metadata21s)
    requires
        envelope_at(v, p, m),
    ensures
        v.len() == 21 + p.len() + ser_map(m).len(),
        v.subrange(0, 10) == seq![0x7bu8] + ser_key(lit_policy()),
        str_at(v, 10, p, 12 + p.len() as int),
        v.subrange(12 + p.len() as int, 20 + p.len() as int) == seq![0x2cu8] + ser_key(lit_data()),
        map_at(v, 20 + p.len() as int, m, v.len() as int - 1),
        v.subrange(v.len() as int - 1, v.len() as int) == seq![0x7du8],
{
    let pl = p.len() as int;
    let ml = ser_map(m).len() as int;
    let e1 = seq![0x7bu8] + ser_key(lit_policy());
    let e2 = ser_str(p);
    let e3 = seq![0x2cu8] + ser_key(lit_data());
    let e4 = ser_map(m);
    let e5 = seq![0x7du8];
    assert(e1.len() == 10 && e2.len() == 2 + pl && e3.len() == 8 && e5.len() == 1);
    assert(ser_envelope(p, m) =~= e1 + (e2 + (e3 + (e4 + e5))));
    assert(v.len() == 21 + pl + ml);
    assert(v.subrange(0, v.len() as int) =~= v);

    let a: int = 10;
    let b: int = a + 2 + pl;
    let c: int = b + 8;
    let d: int = c + ml;
    assert(v =~= v.subrange(0, a) + v.subrange(a, v.len() as int));
    crate::text::lemma_concat_cancel(
        v.subrange(0, a),
        v.subrange(a, v.len() as int),
        e1,
        e2 + (e3 + (e4 + e5)),
    );
    assert(v.subrange(a, v.len() as int) =~= v.subrange(a, b) + v.subrange(b, v.len() as int));
    crate::text::lemma_concat_cancel(
        v.subrange(a, b),
        v.subrange(b, v.len() as int),
        e2,
        e3 + (e4 + e5),
    );
    assert(v.subrange(b, v.len() as int) =~= v.subrange(b, c) + v.subrange(c, v.len() as int));
    crate::text::lemma_concat_cancel(
        v.subrange(b, c),
        v.subrange(c, v.len() as int),
        e3,
        e4 + e5,
    );
    assert(v.subrange(c, v.len() as int) =~= v.subrange(c, d) + v.subrange(d, v.len() as int));
    crate::text::lemma_concat_cancel(
        v.subrange(c, d),
        v.subrange(d, v.len() as int),
        e4,
        e5,
    );
}

/// Read a policy and map out of canonical envelope bytes. Anything this
/// accepts serializes back to exactly the input, and the canonical bytes
/// of any well-formed envelope are accepted.
pub fn deserialize_envelope(v: &Vec<u8>) -> (r: Option<(Vec<u8>, Metadata21s)>)
    ensures
        r matches Some((policy, m)) ==> json_safe(policy@) && m.wf() && ser_envelope(policy@, m)
            == v@,
        forall|p2: Seq<u8>, m2: Metadata21s| envelope_at(v@, p2, m2) ==> r is Some,
{
    let head = envelope_head_bytes();
    assert(head@.len() == 10);
    let a = match expect(v, 0, &head) {
        Some(a) => a,
        None => {
            proof {
                assert forall|p2: Seq<u8>, m2: Metadata21s| envelope_at(v@, p2, m2)
                    implies false by {
                    lemma_env_decompose(v@, p2, m2);
                }
            }
            return None;
        },
    };
    let (policy, b) = match parse_string(v, a) {
        Some(p) => p,
        None => {
            proof {
                assert forall|p2: Seq<u8>, m2: Metadata21s| envelope_at(v@, p2, m2)
                    implies false by {
                    lemma_env_decompose(v@, p2, m2);
                }
            }
            return None;
        },
    };
    let mid = envelope_mid_bytes();
    assert(mid@.len() == 8);
    let c = match expect(v, b, &mid) {
        Some(c) => c,
        None => {
            proof {
                assert forall|p2: Seq<u8>, m2: Metadata21s| envelope_at(v@, p2, m2)
                    implies false by {
                    lemma_env_decompose(v@, p2, m2);
                    assert(b as int == 12 + p2.len() as int);
                }
            }
            return None;
        },
    };
    let (m, d) = match parse_map(v, c) {
        Some(p) => p,
        None => {
            proof {
                assert forall|p2: Seq<u8>, m2: Metadata21s| envelope_at(v@, p2, m2)
                    implies false by {
                    lemma_env_decompose(v@, p2, m2);
                    assert(b as int == 12 + p2.len() as int);
                }
            }
            return None;
        },
    };
    let rb = rbrace_bytes();
    assert(rb@.len() == 1);
    let j = match expect(v, d, &rb) {
        Some(j) => j,
        None => {
            proof {
                assert forall|p2: Seq<u8>, m2: Metadata21s| envelope_at(v@, p2, m2)
                    implies false by {
                    lemma_env_decompose(v@, p2, m2);
                    assert(b as int == 12 + p2.len() as int);
                    assert(d as int == v@.len() as int - 1);
                }
            }
            return None;
        },
    };
    if j != v.len() {
        proof {
            assert forall|p2: Seq<u8>, m2: Metadata21s| envelope_at(v@, p2, m2) implies false by {
                lemma_env_decompose(v@, p2, m2);
                assert(b as int == 12 + p2.len() as int);
                assert(d as int == v@.len() as int - 1);
            }
        }
        return None;
    }
    proof {
        assert(v@.subrange(0, v@.len() as int) =~= v@);
        assert(v@ =~= v@.subrange(0, a as int) + v@.subrange(a as int, b as int) + v@.subrange(
            b as int,
            c as int,
        ) + v@.subrange(c as int, d as int) + v@.subrange(d as int, j as int));
        assert(v@ =~= ser_envelope(policy@, m));
    }
    Some((policy, m))
}

/// Round-trip stability: serializing a map, reading it back, and
/// serializing again gives byte-for-byte the same sidecar.
pub fn round_trip_metadata21s(m: &Metadata21s) -> (r: (Vec<u8>, Vec<u8>))
    requires
        m.wf(),
    ensures
        r.0@ == ser_map(*m),
        r.1@ == r.0@,
{
    let b1 = serialize_metadata21s(m);
    match deserialize_metadata21s(&b1) {
        Some(m2) => {
            let b2 = serialize_metadata21s(&m2);
            (b1, b2)
        },
        None => {
            proof {
                assert(false);
            }
            (Vec::new(), Vec::new())
        },
    }
}

/// Round-trip stability for raw sidecar bytes: whatever parses as a map
/// re-serializes to the very bytes it was read from.
pub fn reserialize_metadata21s(v: &Vec<u8>) -> (r: Option<Vec<u8>>)
    ensures
        r matches Some(w) ==> w@ == v@,
        forall|m2: Metadata21s| m2.wf() && ser_map(m2) == v@ ==> r is Some,
{
    match deserialize_metadata21s(v) {
        Some(m) => Some(serialize_metadata21s(&m)),
        None => None,
    }
}

} // verus!
