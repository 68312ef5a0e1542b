//! Byte-string primitives shared by the cache layout, the wheel-filename
//! parser and the sidecar codec. All strings in this library are byte
//! strings: views are `Seq<u8>`.

use vstd::prelude::*;

verus! {

/// A byte that may stand in a JSON string without escaping: printable ASCII
/// other than the quote and the backslash.
pub open spec fn json_safe_byte(b: u8) -> bool {
    0x20 <= b <= 0x7e && b != 0x22 && b != 0x5c
}

/// Every byte of `s` is JSON-safe.
pub open spec fn json_safe(s: Seq<u8>) -> bool {
    forall|i: int| 0 <= i < s.len() ==> json_safe_byte(#[trigger] s[i])
}

/// Check JSON-safety of a byte string.
pub fn is_json_safe(v: &Vec<u8>) -> (r: bool)
    ensures
        r == json_safe(v@),
{
    let mut i: usize = 0;
    while i < v.len()
        invariant
            i <= v.len(),
            forall|j: int| 0 <= j < i ==> json_safe_byte(#[trigger] v@[j]),
        decreases v.len() - i,
    {
        let b = v[i];
        if !(0x20 <= b && b <= 0x7e && b != 0x22 && b != 0x5c) {
            return false;
        }
        i += 1;
    }
    true
}

/// Equality of two byte strings.
pub fn bytes_eq(a: &Vec<u8>, b: &Vec<u8>) -> (r: bool)
    ensures
        r == (a@ == b@),
{
    if a.len() != b.len() {
        return false;
    }
    let mut i: usize = 0;
    while i < a.len()
        invariant
            i <= a.len(),
            a.len() == b.len(),
            forall|j: int| 0 <= j < i ==> a@[j] == b@[j],
        decreases a.len() - i,
    {
        if a[i] != b[i] {
            return false;
        }
        i += 1;
    }
    proof {
        assert(a@ =~= b@);
    }
    true
}

/// Append all of `src` to `dst`.
pub fn push_all(dst: &mut Vec<u8>, src: &Vec<u8>)
    ensures
        final(dst)@ == old(dst)@ + src@,
{
    let mut i: usize = 0;
    while i < src.len()
        invariant
            i <= src.len(),
            dst@ == old(dst)@ + src@.subrange(0, i as int),
        decreases src.len() - i,
    {
        dst.push(src[i]);
        i += 1;
        proof {
            assert(src@.subrange(0, i as int) =~= src@.subrange(0, i - 1) + seq![src@[i - 1]]);
            assert(dst@ =~= old(dst)@ + src@.subrange(0, i as int));
        }
    }
    proof {
        assert(src@.subrange(0, src@.len() as int) =~= src@);
    }
}

/// Copy `v[from..to]` out as a fresh byte string.
pub fn subvec(v: &Vec<u8>, from: usize, to: usize) -> (r: Vec<u8>)
    requires
        from <= to <= v@.len(),
    ensures
        r@ == v@.subrange(from as int, to as int),
{
    let mut r: Vec<u8> = Vec::new();
    let mut i: usize = from;
    while i < to
        invariant
            from <= i <= to <= v@.len(),
            r@ == v@.subrange(from as int, i as int),
        decreases to - i,
    {
        r.push(v[i]);
        i += 1;
        proof {
            assert(v@.subrange(from as int, i as int) =~= v@.subrange(from as int, i - 1)
                + seq![v@[i - 1]]);
        }
    }
    r
}

/// Index of the first occurrence of `b` in `s`, or -1 when absent.
pub open spec fn find_spec(s: Seq<u8>, b: u8) -> int
    decreases s.len(),
{
    if s.len() == 0 {
        -1
    } else if s[0] == b {
        0
    } else {
        let r = find_spec(s.subrange(1, s.len() as int), b);
        if r < 0 {
            -1
        } else {
            r + 1
        }
    }
}

/// `find_spec` names the first occurrence: the prefix before it is free of
/// `b`, and a hit is in bounds.
pub proof fn lemma_find_spec(s: Seq<u8>, b: u8)
    ensures
        find_spec(s, b) >= 0 ==> 0 <= find_spec(s, b) < s.len() && s[find_spec(s, b)] == b,
        forall|j: int| 0 <= j < s.len() && s[j] == b ==> find_spec(s, b) >= 0,
        forall|j: int| 0 <= j && j < find_spec(s, b) ==> s[j] != b,
        find_spec(s, b) < 0 ==> forall|j: int| 0 <= j < s.len() ==> s[j] != b,
    decreases s.len(),
{
    if s.len() == 0 {
    } else if s[0] == b {
    } else {
        let t = s.subrange(1, s.len() as int);
        lemma_find_spec(t, b);
        assert forall|j: int| 0 <= j && j < find_spec(s, b) implies s[j] != b by {
            if j > 0 {
                assert(s[j] == t[j - 1]);
            }
        }
        assert forall|j: int| 0 <= j < s.len() && s[j] == b implies find_spec(s, b) >= 0 by {
            if j > 0 {
                assert(t[j - 1] == b);
            }
        }
        if find_spec(t, b) < 0 {
            assert forall|j: int| 0 <= j < s.len() implies s[j] != b by {
                if j > 0 {
                    assert(s[j] == t[j - 1]);
                }
            }
        }
    }
}

/// Find the first occurrence of `b` in `v`.
pub fn find_byte(v: &Vec<u8>, b: u8) -> (r: Option<usize>)
    ensures
        r matches Some(i) ==> find_spec(v@, b) == i as int,
        r is None ==> find_spec(v@, b) < 0,
{
    let mut i: usize = 0;
    while i < v.len()
        invariant
            i <= v.len(),
            forall|j: int| 0 <= j < i ==> v@[j] != b,
        decreases v.len() - i,
    {
        if v[i] == b {
            proof {
                lemma_find_spec(v@, b);
            }
            return Some(i);
        }
        i += 1;
    }
    proof {
        lemma_find_spec(v@, b);
    }
    None
}

/// Split `s` at every occurrence of `sep`. The result always has one more
/// element than `s` has separators; empty segments are kept.
pub open spec fn split_spec(s: Seq<u8>, sep: u8) -> Seq<Seq<u8>>
    decreases s.len(),
{
    let i = find_spec(s, sep);
    if !(0 <= i < s.len()) {
        seq![s]
    } else {
        seq![s.subrange(0, i)] + split_spec(s.subrange(i + 1, s.len() as int), sep)
    }
}

/// The views of a list of byte strings.
pub open spec fn views(r: Seq<Vec<u8>>) -> Seq<Seq<u8>> {
    r.map_values(|x: Vec<u8>| x@)
}

/// Split `v` at every occurrence of `sep`.
pub fn split(v: &Vec<u8>, sep: u8) -> (r: Vec<Vec<u8>>)
    ensures
        views(r@) == split_spec(v@, sep),
        r@.len() >= 1,
    decreases v@.len(),
{
    match find_byte(v, sep) {
        None => {
            let mut r: Vec<Vec<u8>> = Vec::new();
            r.push(v.clone());
            proof {
                assert(views(r@) =~= split_spec(v@, sep));
            }
            r
        },
        Some(i) => {
            proof {
                lemma_find_spec(v@, sep);
            }
            assert(0 <= find_spec(v@, sep) < v@.len());
            assert(i < v.len());
            let head = subvec(v, 0, i);
            let tail = subvec(v, i + 1, v.len());
            let rest = split(&tail, sep);
            let mut r: Vec<Vec<u8>> = Vec::new();
            r.push(head);
            let mut k: usize = 0;
            while k < rest.len()
                invariant
                    k <= rest@.len(),
                    r@.len() == k + 1,
                    r@[0] == head,
                    forall|j: int| 0 <= j < k ==> r@[j + 1]@ == rest@[j]@,
                decreases rest.len() - k,
            {
                let e = rest[k].clone();
                assert(e@ == rest@[k as int]@);
                r.push(e);
                k += 1;
                proof {
                    assert(r@[k as int]@ == rest@[k - 1]@);
                }
            }
            proof {
                assert(views(r@) =~= seq![v@.subrange(0, i as int)] + views(rest@));
            }
            r
        },
    }
}

/// Membership of a byte string in a list.
pub open spec fn seq_contains(s: Seq<Seq<u8>>, x: Seq<u8>) -> bool {
    exists|i: int| 0 <= i < s.len() && s[i] == x
}

/// Does `v` hold a byte string equal to `x`?
pub fn vec_contains(v: &Vec<Vec<u8>>, x: &Vec<u8>) -> (r: bool)
    ensures
        r == seq_contains(views(v@), x@),
{
    let mut i: usize = 0;
    while i < v.len()
        invariant
            i <= v.len(),
            forall|j: int| 0 <= j < i ==> views(v@)[j] != x@,
        decreases v.len() - i,
    {
        if bytes_eq(&v[i], x) {
            assert(views(v@)[i as int] == x@);
            return true;
        }
        i += 1;
    }
    false
}

/// ASCII lowercase of one byte.
pub open spec fn lower_byte(b: u8) -> u8 {
    if 0x41 <= b <= 0x5a {
        (b + 0x20) as u8
    } else {
        b
    }
}

/// ASCII lowercase of a byte string.
pub open spec fn lower_spec(s: Seq<u8>) -> Seq<u8> {
    s.map_values(|b: u8| lower_byte(b))
}

/// Lowercase `v`, ASCII-wise.
pub fn to_lower(v: &Vec<u8>) -> (r: Vec<u8>)
    ensures
        r@ == lower_spec(v@),
{
    let mut r: Vec<u8> = Vec::new();
    let mut i: usize = 0;
    while i < v.len()
        invariant
            i <= v.len(),
            r@.len() == i,
            forall|j: int| 0 <= j < i ==> r@[j] == lower_byte(v@[j]),
        decreases v.len() - i,
    {
        let b = v[i];
        if 0x41 <= b && b <= 0x5a {
            r.push(b + 0x20);
        } else {
            r.push(b);
        }
        i += 1;
    }
    proof {
        assert(r@ =~= lower_spec(v@));
    }
    r
}

/// `s` ends with `suffix`.
pub open spec fn ends_with(s: Seq<u8>, suffix: Seq<u8>) -> bool {
    s.len() >= suffix.len() && s.subrange(s.len() - suffix.len(), s.len() as int) == suffix
}

/// `s` starts with `prefix`.
pub open spec fn starts_with(s: Seq<u8>, prefix: Seq<u8>) -> bool {
    s.len() >= prefix.len() && s.subrange(0, prefix.len() as int) == prefix
}

/// Does `v` start with `prefix`?
pub fn has_prefix(v: &Vec<u8>, prefix: &Vec<u8>) -> (r: bool)
    ensures
        r == starts_with(v@, prefix@),
{
    if v.len() < prefix.len() {
        return false;
    }
    let head = subvec(v, 0, prefix.len());
    bytes_eq(&head, prefix)
}

/// Does `v` end with `suffix`?
pub fn has_suffix(v: &Vec<u8>, suffix: &Vec<u8>) -> (r: bool)
    ensures
        r == ends_with(v@, suffix@),
{
    if v.len() < suffix.len() {
        return false;
    }
    let tail = subvec(v, v.len() - suffix.len(), v.len());
    bytes_eq(&tail, suffix)
}

/// Cancellation for concatenation: equal strings with equal-length prefixes
/// have equal prefixes and equal suffixes.
pub proof fn lemma_concat_cancel(a: Seq<u8>, b: Seq<u8>, c: Seq<u8>, d: Seq<u8>)
    requires
        a + b == c + d,
        a.len() == c.len(),
    ensures
        a == c,
        b == d,
{
    assert((a + b).len() == a.len() + b.len());
    assert((c + d).len() == c.len() + d.len());
    assert(b.len() == d.len());
    assert forall|i: int| 0 <= i < a.len() implies a[i] == c[i] by {
        assert((a + b)[i] == a[i]);
        assert((c + d)[i] == c[i]);
    }
    assert(a =~= c);
    assert forall|i: int| 0 <= i < b.len() implies b[i] == d[i] by {
        assert((a + b)[a.len() + i] == b[i]);
        assert((c + d)[c.len() + i] == d[i]);
    }
    assert(b =~= d);
}

} // verus!
