//! Structured wheel filenames and tag compatibility.
//!
//! A wheel filename has the shape
//! `{distribution}-{version}-{python tag}-{abi tag}-{platform tag}.whl`.
//! Each tag field may hold several alternatives separated by dots. A filename
//! is compatible with a target tag set when at least one of its tag triples
//! is in the set.

use vstd::prelude::*;
use crate::text::{
    bytes_eq, ends_with, find_spec, json_safe, json_safe_byte, lemma_find_spec, seq_contains,
    split, split_spec, subvec, vec_contains, views,
};

verus! {

/// A byte allowed in a wheel filename: ASCII alphanumerics and `. _ + %`,
/// plus `-` as the field separator.
pub open spec fn wheel_byte(b: u8) -> bool {
    (0x30 <= b <= 0x39) || (0x41 <= b <= 0x5a) || (0x61 <= b <= 0x7a) || b == 0x2e || b == 0x5f
        || b == 0x2b || b == 0x25 || b == 0x2d
}

/// Every byte of `s` is allowed in a wheel filename.
pub open spec fn wheel_charset(s: Seq<u8>) -> bool {
    forall|i: int| 0 <= i < s.len() ==> wheel_byte(#[trigger] s[i])
}

/// The `.whl` suffix as bytes.
pub open spec fn whl_suffix() -> Seq<u8> {
    seq![0x2eu8, 0x77u8, 0x68u8, 0x6cu8]
}

/// `s` is a well-formed wheel filename: it carries the `.whl` suffix, its
/// stem splits at `-` into exactly five non-empty fields, and it stays within
/// the wheel charset.
pub open spec fn is_wheel_filename(s: Seq<u8>) -> bool {
    let stem = s.subrange(0, s.len() - 4);
    let parts = split_spec(stem, 0x2d);
    &&& ends_with(s, whl_suffix())
    &&& s.len() > 4
    &&& wheel_charset(s)
    &&& parts.len() == 5
    &&& forall|i: int| 0 <= i < 5 ==> (#[trigger] parts[i]).len() > 0
}

/// A parsed wheel filename. `raw` is the full filename as given; the other
/// fields are its five `-`-separated components.
#[derive(Clone, Debug)]
pub struct WheelFilename {
    pub raw: Vec<u8>,
    pub name: Vec<u8>,
    pub version: Vec<u8>,
    pub python_tag: Vec<u8>,
    pub abi_tag: Vec<u8>,
    pub platform_tag: Vec<u8>,
}

impl WheelFilename {
    /// The parsed fields agree with the raw filename.
    pub open spec fn wf(self) -> bool {
        let stem = self.raw@.subrange(0, self.raw@.len() - 4);
        let parts = split_spec(stem, 0x2d);
        &&& is_wheel_filename(self.raw@)
        &&& self.name@ == parts[0]
        &&& self.version@ == parts[1]
        &&& self.python_tag@ == parts[2]
        &&& self.abi_tag@ == parts[3]
        &&& self.platform_tag@ == parts[4]
    }

    /// Parse a filename. Succeeds exactly on well-formed wheel filenames and
    /// then returns the structured form of the input.
    pub fn parse(input: &Vec<u8>) -> (r: Option<WheelFilename>)
        ensures
            r is Some <==> is_wheel_filename(input@),
            r matches Some(f) ==> f.wf() && f.raw@ == input@,
    {
        if input.len() <= 4 {
            return None;
        }
        let mut charset_ok = true;
        let mut i: usize = 0;
        while i < input.len()
            invariant
                i <= input.len(),
                charset_ok == forall|j: int| 0 <= j < i ==> wheel_byte(#[trigger] input@[j]),
            decreases input.len() - i,
        {
            let b = input[i];
            let ok = (0x30 <= b && b <= 0x39) || (0x41 <= b && b <= 0x5a) || (0x61 <= b && b
                <= 0x7a) || b == 0x2e || b == 0x5f || b == 0x2b || b == 0x25 || b == 0x2d;
            charset_ok = charset_ok && ok;
            i += 1;
        }
        if !charset_ok {
            return None;
        }
        let mut suffix: Vec<u8> = Vec::new();
        suffix.push(0x2e);
        suffix.push(0x77);
        suffix.push(0x68);
        suffix.push(0x6c);
        proof {
            assert(suffix@ =~= whl_suffix());
        }
        let tail = subvec(input, input.len() - 4, input.len());
        if !bytes_eq(&tail, &suffix) {
            return None;
        }
        let stem = subvec(input, 0, input.len() - 4);
        let parts = split(&stem, 0x2d);
        if parts.len() != 5 {
            return None;
        }
        let mut k: usize = 0;
        while k < 5
            invariant
                k <= 5,
                parts@.len() == 5,
                views(parts@) == split_spec(input@.subrange(0, input@.len() - 4), 0x2d),
                forall|j: int| 0 <= j < k ==> (#[trigger] views(parts@)[j]).len() > 0,
            decreases 5 - k,
        {
            if parts[k].len() == 0 {
                assert(views(parts@)[k as int].len() == 0);
                assert(split_spec(input@.subrange(0, input@.len() - 4), 0x2d)[k as int].len()
                    == 0);
                return None;
            }
            assert(views(parts@)[k as int].len() > 0);
            k += 1;
        }
        let f = WheelFilename {
            raw: input.clone(),
            name: parts[0].clone(),
            version: parts[1].clone(),
            python_tag: parts[2].clone(),
            abi_tag: parts[3].clone(),
            platform_tag: parts[4].clone(),
        };
        assert(f.name@ == views(parts@)[0]);
        assert(f.version@ == views(parts@)[1]);
        assert(f.python_tag@ == views(parts@)[2]);
        assert(f.abi_tag@ == views(parts@)[3]);
        assert(f.platform_tag@ == views(parts@)[4]);
        Some(f)
    }

    /// The canonical string of the filename: the raw input it was parsed
    /// from.
    pub fn to_bytes(&self) -> (r: Vec<u8>)
        ensures
            r@ == self.raw@,
    {
        self.raw.clone()
    }

    /// At least one of the filename's tag triples is in `tags`.
    pub fn is_compatible(&self, tags: &Tags) -> (r: bool)
        ensures
            r == compatible(*self, *tags),
    {
        let pys = split(&self.python_tag, 0x2e);
        let abis = split(&self.abi_tag, 0x2e);
        let plats = split(&self.platform_tag, 0x2e);
        let mut i: usize = 0;
        while i < tags.triples.len()
            invariant
                i <= tags.triples@.len(),
                views(pys@) == split_spec(self.python_tag@, 0x2e),
                views(abis@) == split_spec(self.abi_tag@, 0x2e),
                views(plats@) == split_spec(self.platform_tag@, 0x2e),
                forall|j: int| 0 <= j < i ==> !triple_matches(*self, #[trigger] tags.triples@[j]),
            decreases tags.triples@.len() - i,
        {
            let t = &tags.triples[i];
            if vec_contains(&pys, &t.python) && vec_contains(&abis, &t.abi) && vec_contains(
                &plats,
                &t.platform,
            ) {
                assert(triple_matches(*self, tags.triples@[i as int]));
                return true;
            }
            i += 1;
        }
        false
    }
}

/// One interpreter/ABI/platform tag triple of the target environment.
#[derive(Clone, Debug)]
pub struct TagTriple {
    pub python: Vec<u8>,
    pub abi: Vec<u8>,
    pub platform: Vec<u8>,
}

/// The target environment's tag set.
#[derive(Clone, Debug)]
pub struct Tags {
    pub triples: Vec<TagTriple>,
}

impl Tags {
    /// An empty tag set: compatible with nothing.
    pub fn new() -> (r: Tags)
        ensures
            r.triples@.len() == 0,
    {
        Tags { triples: Vec::new() }
    }

    /// Add one triple to the set.
    pub fn push(&mut self, python: Vec<u8>, abi: Vec<u8>, platform: Vec<u8>)
        ensures
            final(self).triples@ == old(self).triples@.push(
                TagTriple { python, abi, platform },
            ),
    {
        self.triples.push(TagTriple { python, abi, platform });
    }
}

/// The triple `t` intersects the filename's tag fields: each of its parts is
/// one of the dot-separated alternatives of the matching field.
pub open spec fn triple_matches(f: WheelFilename, t: TagTriple) -> bool {
    &&& seq_contains(split_spec(f.python_tag@, 0x2e), t.python@)
    &&& seq_contains(split_spec(f.abi_tag@, 0x2e), t.abi@)
    &&& seq_contains(split_spec(f.platform_tag@, 0x2e), t.platform@)
}

/// The two filenames agree field for field.
pub open spec fn same_filename(a: WheelFilename, b: WheelFilename) -> bool {
    &&& a.raw@ == b.raw@
    &&& a.name@ == b.name@
    &&& a.version@ == b.version@
    &&& a.python_tag@ == b.python_tag@
    &&& a.abi_tag@ == b.abi_tag@
    &&& a.platform_tag@ == b.platform_tag@
}

/// Tag compatibility: at least one triple of `tags` intersects `f`.
pub open spec fn compatible(f: WheelFilename, tags: Tags) -> bool {
    exists|i: int| 0 <= i < tags.triples@.len() && triple_matches(f, #[trigger] tags.triples@[i])
}

/// Tag compatibility reads only the filename's tag fields, so field-equal
/// filenames are compatible with the same tag sets.
pub proof fn lemma_same_filename_compatible(a: WheelFilename, b: WheelFilename, tags: Tags)
    requires
        same_filename(a, b),
    ensures
        compatible(a, tags) == compatible(b, tags),
{
    assert forall|i: int| 0 <= i < tags.triples@.len() implies triple_matches(
        a,
        #[trigger] tags.triples@[i],
    ) == triple_matches(b, tags.triples@[i]) by {}
    if compatible(a, tags) {
        let i = choose|i: int|
            0 <= i < tags.triples@.len() && triple_matches(a, #[trigger] tags.triples@[i]);
        assert(triple_matches(b, tags.triples@[i]));
    }
    if compatible(b, tags) {
        let i = choose|i: int|
            0 <= i < tags.triples@.len() && triple_matches(b, #[trigger] tags.triples@[i]);
        assert(triple_matches(a, tags.triples@[i]));
    }
}

/// Wheel-filename bytes are JSON-safe, so a stored filename may stand as a
/// JSON object key without escaping.
pub proof fn lemma_wheel_charset_json_safe(s: Seq<u8>)
    requires
        wheel_charset(s),
    ensures
        json_safe(s),
{
    assert forall|i: int| 0 <= i < s.len() implies json_safe_byte(s[i]) by {
        assert(wheel_byte(s[i]));
    }
}

} // verus!
