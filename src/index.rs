//! Secondary indices: the key encoding of property values, hash and ordered
//! indices from keys to entity ids, and the index manager that routes labels
//! and property keys to them.
use vstd::prelude::*;

use crate::error::DeepGraphError;
use crate::graph::{PVal, PropertyValue};

verus! {

/// The two index shapes: equality only, or ordered with range scans.
#[derive(Debug, Clone, Copy, PartialEq, Eq, Structural)]
pub enum IndexType {
    Hash,
    BTree,
}

/// What an index covers.
#[derive(Debug)]
pub struct IndexConfig {
    pub name: String,
    pub index_type: IndexType,
    pub property_key: Option<String>,
    pub is_label_index: bool,
}

impl IndexConfig {
    /// An index over node labels.
    pub fn label_index(name: String, index_type: IndexType) -> (r: IndexConfig)
        ensures
            r.name == name,
            r.index_type == index_type,
            r.property_key is None,
            r.is_label_index,
    {
        IndexConfig { name, index_type, property_key: None, is_label_index: true }
    }

    /// An index over one property key.
    pub fn property_index(name: String, index_type: IndexType, property_key: String) -> (r: IndexConfig)
        ensures
            r.name == name,
            r.index_type == index_type,
            r.property_key == Some(property_key),
            !r.is_label_index,
    {
        IndexConfig { name, index_type, property_key: Some(property_key), is_label_index: false }
    }
}

/// Statistics of an ordered index.
#[derive(Debug)]
pub struct BTreeIndexStats {
    pub total_entries: usize,
    pub size_on_disk: u64,
}

/// The text that lossy UTF-8 decoding gives for some bytes.
pub uninterp spec fn utf8_lossy(b: Seq<u8>) -> Seq<char>;

/// Relies on String::from_utf8_lossy: invalid sequences become U+FFFD, the
/// result depends on the bytes alone.
#[verifier::external_body]
pub fn bytes_to_string(bytes: &[u8]) -> (r: String)
    ensures
        r@ == utf8_lossy(bytes@),
{
    String::from_utf8_lossy(bytes).to_string()
}

/// The eight big-endian bytes of `x`.
pub open spec fn be64(x: u64) -> Seq<u8> {
    Seq::new(8, |i: int| ((x as nat / pow256(7 - i)) % 256) as u8)
}

pub open spec fn pow256(k: int) -> nat
    decreases k,
{
    if k <= 0 {
        1
    } else {
        256 * pow256(k - 1)
    }
}

/// The sign-flipped form of an integer, which orders like the integer.
pub open spec fn flip_sign(i: int) -> u64 {
    (i + 0x8000_0000_0000_0000) as u64
}

/// The reserved byte that keys a null value.
pub open spec fn null_byte() -> u8 {
    0xFF
}

/// The key bytes of a value: strings as UTF-8, integers as eight sign-flipped
/// big-endian bytes, floats as eight bytes in IEEE order (sign-adjusted
/// big-endian), booleans as one byte and null as one reserved byte. Lists and
/// maps have no key.
pub open spec fn key_of(v: PVal) -> Option<Seq<u8>> {
    match v {
        PVal::Str(t) => Some(vstd::utf8::encode_utf8(t)),
        PVal::Int(i) => Some(be64(flip_sign(i))),
        PVal::Float(b) => Some(
            be64(if b >= 0x8000_0000_0000_0000 { (0xFFFF_FFFF_FFFF_FFFFu64 - b) as u64 } else { (b + 0x8000_0000_0000_0000) as u64 }),
        ),
        PVal::Bool(b) => Some(seq![if b { 1u8 } else { 0u8 }]),
        PVal::Null => Some(seq![null_byte()]),
        _ => None,
    }
}

/// Big-endian bytes of a `u64`.
fn push_be64(out: &mut Vec<u8>, x: u64)
    ensures
        final(out)@ == old(out)@ + be64(x),
{
    let ghost start = out@;
    let mut k: usize = 0;
    while k < 8
        invariant
            k <= 8,
            out@.len() == start.len() + k,
            forall|j: int| 0 <= j < start.len() ==> out@[j] == start[j],
            forall|j: int| 0 <= j < k ==> out@[start.len() + j] == be64(x)[j],
        decreases 8 - k,
    {
        let shift: u64 = 8 * (7 - k as u64);
        let byte = ((x >> shift) & 0xFF) as u8;
        proof {
            lemma_byte(x, k as int);
        }
        out.push(byte);
        k = k + 1;
    }
    proof {
        assert(out@ =~= start + be64(x));
    }
}

proof fn lemma_byte(x: u64, k: int)
    requires
        0 <= k < 8,
    ensures
        ((x >> (8 * (7 - k as u64))) & 0xFF) as u8 == be64(x)[k],
{
    let sh = (8 * (7 - k)) as u64;
    assert(((x >> sh) & 0xFF) == (x >> sh) % 256) by (bit_vector);
    lemma_shift_div(x, (7 - k) as u64);
}

proof fn lemma_shift_div(x: u64, k: u64)
    requires
        k < 8,
    ensures
        (x >> (8 * k)) as nat == x as nat / pow256(k as int),
{
    reveal_with_fuel(pow256, 8);
    if k == 0 {
        assert(x >> 0u64 == x) by (bit_vector);
        assert(pow256(0) == 1);
        assert(8 * k == 0);
    } else if k == 1 {
        assert(x >> 8u64 == x / 256) by (bit_vector);
        assert(pow256(1) == 256);
        assert(8 * k == 8);
    } else if k == 2 {
        assert(x >> 16u64 == x / 65536) by (bit_vector);
        assert(pow256(2) == 65536);
        assert(8 * k == 16);
    } else if k == 3 {
        assert(x >> 24u64 == x / 16777216) by (bit_vector);
        assert(pow256(3) == 16777216);
        assert(8 * k == 24);
    } else if k == 4 {
        assert(x >> 32u64 == x / 4294967296) by (bit_vector);
        assert(pow256(4) == 4294967296);
        assert(8 * k == 32);
    } else if k == 5 {
        assert(x >> 40u64 == x / 1099511627776) by (bit_vector);
        assert(pow256(5) == 1099511627776);
        assert(8 * k == 40);
    } else if k == 6 {
        assert(x >> 48u64 == x / 281474976710656) by (bit_vector);
        assert(pow256(6) == 281474976710656);
        assert(8 * k == 48);
    } else {
        assert(x >> 56u64 == x / 72057594037927936) by (bit_vector);
        assert(pow256(7) == 72057594037927936);
        assert(8 * k == 56);
    }
}

/// The index key of a property value (`None` for lists and maps).
pub fn property_to_bytes(value: &PropertyValue) -> (r: Option<Vec<u8>>)
    ensures
        match key_of(value@) {
            Some(k) => r is Some && r->Some_0@ == k,
            None => r is None,
        },
{
    let mut out: Vec<u8> = Vec::new();
    match value {
        PropertyValue::String(t) => {
            let b = t.as_str().as_bytes();
            let mut i: usize = 0;
            proof {
                assert(out@ =~= b@.subrange(0, 0));
            }
            while i < b.len()
                invariant
                    i <= b@.len(),
                    out@ == b@.subrange(0, i as int),
                decreases b.len() - i,
            {
                out.push(b[i]);
                proof {
                    assert(out@ =~= b@.subrange(0, i + 1));
                }
                i = i + 1;
            }
            proof {
                assert(b@.subrange(0, b@.len() as int) =~= b@);
            }
            Some(out)
        },
        PropertyValue::Integer(i) => {
            let f = ((*i as i128) + 0x8000_0000_0000_0000i128) as u64;
            push_be64(&mut out, f);
            proof {
                assert(out@ =~= Seq::<u8>::empty() + be64(f));
            }
            Some(out)
        },
        PropertyValue::Float(b) => {
            let f = if *b >= 0x8000_0000_0000_0000u64 {
                0xFFFF_FFFF_FFFF_FFFFu64 - *b
            } else {
                *b + 0x8000_0000_0000_0000u64
            };
            push_be64(&mut out, f);
            proof {
                assert(out@ =~= Seq::<u8>::empty() + be64(f));
            }
            Some(out)
        },
        PropertyValue::Boolean(b) => {
            out.push(if *b { 1 } else { 0 });
            proof {
                assert(out@ =~= seq![if *b { 1u8 } else { 0u8 }]);
            }
            Some(out)
        },
        PropertyValue::Null => {
            out.push(0xFF);
            proof {
                assert(out@ =~= seq![null_byte()]);
            }
            Some(out)
        },
        _ => None,
    }
}

/// Whether two byte strings are equal.
fn bytes_eq(a: &Vec<u8>, b: &Vec<u8>) -> (r: bool)
    ensures
        r == (a@ == b@),
{
    if a.len() != b.len() {
        return false;
    }
    let mut i: usize = 0;
    while i < a.len()
        invariant
            a@.len() == b@.len(),
            i <= a@.len(),
            forall|j: int| 0 <= j < i ==> a@[j] == b@[j],
        decreases a.len() - i,
    {
        if a[i] != b[i] {
            return false;
        }
        i = i + 1;
    }
    proof {
        assert(a@ =~= b@);
    }
    true
}

/// Lexicographic order on byte strings.
pub open spec fn bytes_lt(a: Seq<u8>, b: Seq<u8>) -> bool
    decreases a.len(),
{
    if a.len() == 0 {
        b.len() > 0
    } else if b.len() == 0 {
        false
    } else if a[0] != b[0] {
        a[0] < b[0]
    } else {
        bytes_lt(a.drop_first(), b.drop_first())
    }
}

fn bytes_less(a: &Vec<u8>, b: &Vec<u8>) -> (r: bool)
    ensures
        r == bytes_lt(a@, b@),
{
    let mut i: usize = 0;
    proof {
        assert(a@.subrange(0, a@.len() as int) =~= a@);
        assert(b@.subrange(0, b@.len() as int) =~= b@);
    }
    while i < a.len() && i < b.len() && a[i] == b[i]
        invariant
            i <= a@.len(),
            i <= b@.len(),
            bytes_lt(a@, b@) == bytes_lt(a@.subrange(i as int, a@.len() as int), b@.subrange(i as int, b@.len() as int)),
        decreases a.len() - i,
    {
        proof {
            let x = a@.subrange(i as int, a@.len() as int);
            let y = b@.subrange(i as int, b@.len() as int);
            assert(x.drop_first() =~= a@.subrange(i + 1, a@.len() as int));
            assert(y.drop_first() =~= b@.subrange(i + 1, b@.len() as int));
        }
        i = i + 1;
    }
    if i == a.len() {
        i < b.len()
    } else if i == b.len() {
        false
    } else {
        a[i] < b[i]
    }
}

/// The model of a list of index entries.
pub open spec fn pairs(v: Seq<(Vec<u8>, u128)>) -> Seq<(Seq<u8>, u128)> {
    v.map_values(|e: (Vec<u8>, u128)| (e.0@, e.1))
}

/// A key index: a set of (key, entity id) pairs. Hash indices answer point
/// lookups; ordered indices also answer half-open key ranges.
#[derive(Debug)]
pub struct KeyIndex {
    entries: Vec<(Vec<u8>, u128)>,
}

impl KeyIndex {
    /// The pairs the index holds.
    pub closed spec fn view(&self) -> Set<(Seq<u8>, u128)> {
        pairs(self.entries@).to_set()
    }

    pub fn new() -> (r: KeyIndex)
        ensures
            r.view() == Set::<(Seq<u8>, u128)>::empty(),
    {
        let r = KeyIndex { entries: Vec::new() };
        proof {
            assert(r.view() =~= Set::empty());
        }
        r
    }

    fn position(&self, key: &Vec<u8>, id: u128) -> (r: Option<usize>)
        ensures
            match r {
                Some(i) => i < self.entries@.len() && self.entries@[i as int].0@ == key@ && self.entries@[i as int].1 == id,
                None => !self.view().contains((key@, id)),
            },
    {
        let mut i: usize = 0;
        while i < self.entries.len()
            invariant
                i <= self.entries@.len(),
                forall|j: int| 0 <= j < i ==> !(self.entries@[j].0@ == key@ && self.entries@[j].1 == id),
            decreases self.entries.len() - i,
        {
            if self.entries[i].1 == id && bytes_eq(&self.entries[i].0, key) {
                return Some(i);
            }
            i = i + 1;
        }
        proof {
            let m = pairs(self.entries@);
            if m.contains((key@, id)) {
                let j = choose|j: int| 0 <= j < m.len() && m[j] == (key@, id);
                assert(self.entries@[j].0@ == key@ && self.entries@[j].1 == id);
            }
        }
        None
    }

    /// Adds the pair `(key, id)`.
    pub fn insert(&mut self, key: Vec<u8>, id: u128)
        ensures
            final(self).view() == old(self).view().insert((key@, id)),
    {
        let pos = self.position(&key, id);
        if pos.is_none() {
            let ghost before = self.entries@;
            self.entries.push((key, id));
            proof {
                let m0 = pairs(before);
                assert(pairs(self.entries@) =~= m0.push((key@, id)));
                crate::deadlock::lemma_push_to_set_pub(m0, (key@, id));
            }
        } else {
            proof {
                let i = pos->Some_0 as int;
                assert(pairs(self.entries@)[i] == (key@, id));
                assert(pairs(self.entries@).contains((key@, id)));
                assert(old(self).view().insert((key@, id)) =~= old(self).view());
            }
        }
    }

    /// Removes the pair `(key, id)`.
    pub fn remove(&mut self, key: &Vec<u8>, id: u128)
        ensures
            final(self).view() == old(self).view().remove((key@, id)),
    {
        let mut kept: Vec<(Vec<u8>, u128)> = Vec::new();
        let mut old_entries: Vec<(Vec<u8>, u128)> = Vec::new();
        std::mem::swap(&mut old_entries, &mut self.entries);
        let ghost all = pairs(old_entries@);
        let mut rest = old_entries;
        proof {
            assert(old(self).view() == all.to_set());
        }
        while rest.len() > 0
            invariant
                forall|x: (Seq<u8>, u128)| #[trigger] pairs(kept@).contains(x) ==> all.contains(x) && x != (key@, id),
                forall|x: (Seq<u8>, u128)| all.contains(x) && x != (key@, id) ==> #[trigger] pairs(kept@).contains(x) || pairs(rest@).contains(x),
                forall|x: (Seq<u8>, u128)| #[trigger] pairs(rest@).contains(x) ==> all.contains(x),
            decreases rest.len(),
        {
            let ghost r0 = pairs(rest@);
            let ghost k0 = pairs(kept@);
            let e = rest.pop().unwrap();
            let ghost r1 = pairs(rest@);
            proof {
                assert(r0 =~= r1.push((e.0@, e.1)));
                assert forall|x: (Seq<u8>, u128)| r1.contains(x) implies r0.contains(x) by {
                    let j = choose|j: int| 0 <= j < r1.len() && r1[j] == x;
                    assert(r0[j] == x);
                }
                assert(r0[r1.len() as int] == (e.0@, e.1));
            }
            if !(e.1 == id && bytes_eq(&e.0, key)) {
                let ghost pair = (e.0@, e.1);
                kept.push(e);
                proof {
                    let k1 = pairs(kept@);
                    assert(k1 =~= k0.push(pair));
                    assert forall|x: (Seq<u8>, u128)| k0.contains(x) implies k1.contains(x) by {
                        let j = choose|j: int| 0 <= j < k0.len() && k0[j] == x;
                        assert(k1[j] == x);
                    }
                    assert(k1[k0.len() as int] == pair);
                    assert(r0.contains(pair));
                    assert(all.contains(pair));
                    assert forall|x: (Seq<u8>, u128)| k1.contains(x) implies k0.contains(x) || x == pair by {
                        let j = choose|j: int| 0 <= j < k1.len() && k1[j] == x;
                        if j < k0.len() {
                            assert(k0[j] == x);
                        }
                    }
                    assert forall|x: (Seq<u8>, u128)| r0.contains(x) implies r1.contains(x) || x == pair by {
                        let j = choose|j: int| 0 <= j < r0.len() && r0[j] == x;
                        if j < r1.len() {
                            assert(r1[j] == x);
                        }
                    }
                }
            } else {
                proof {
                    assert forall|x: (Seq<u8>, u128)| r0.contains(x) implies r1.contains(x) || x == (key@, id) by {
                        let j = choose|j: int| 0 <= j < r0.len() && r0[j] == x;
                        if j < r1.len() {
                            assert(r1[j] == x);
                        }
                    }
                }
            }
        }
        self.entries = kept;
        proof {
            let k = pairs(self.entries@);
            assert forall|x: (Seq<u8>, u128)| #[trigger] self.view().contains(x) <==> old(self).view().remove((key@, id)).contains(x) by {
                if all.contains(x) && x != (key@, id) {
                    assert(!pairs(rest@).contains(x));
                }
            }
            assert(self.view() =~= old(self).view().remove((key@, id)));
        }
    }

    /// The ids stored under `key`.
    pub fn lookup(&self, key: &Vec<u8>) -> (r: Vec<u128>)
        ensures
            forall|id: u128| #[trigger] r@.contains(id) <==> self.view().contains((key@, id)),
    {
        self.select(key, key, true)
    }

    /// The ids stored under keys in `[start, end)` (lexicographic byte order).
    pub fn range(&self, start: &Vec<u8>, end: &Vec<u8>) -> (r: Vec<u128>)
        ensures
            forall|id: u128| #[trigger] r@.contains(id) <==> exists|k: Seq<u8>|
                #[trigger] self.view().contains((k, id)) && !bytes_lt(k, start@) && bytes_lt(k, end@),
    {
        self.select(start, end, false)
    }

    /// Ids whose key equals `lo` (`exact`) or lies in `[lo, hi)`.
    fn select(&self, lo: &Vec<u8>, hi: &Vec<u8>, exact: bool) -> (r: Vec<u128>)
        ensures
            forall|id: u128| #[trigger] r@.contains(id) <==> exists|k: Seq<u8>|
                #[trigger] self.view().contains((k, id)) && key_selected(k, lo@, hi@, exact),
    {
        let mut out: Vec<u128> = Vec::new();
        let mut i: usize = 0;
        while i < self.entries.len()
            invariant
                i <= self.entries@.len(),
                forall|id: u128| #[trigger] out@.contains(id) <==> exists|j: int|
                    0 <= j < i && self.entries@[j].1 == id && key_selected(#[trigger] self.entries@[j].0@, lo@, hi@, exact),
            decreases self.entries.len() - i,
        {
            let k = &self.entries[i].0;
            let keep = if exact {
                bytes_eq(k, lo)
            } else {
                !bytes_less(k, lo) && bytes_less(k, hi)
            };
            let ghost before = out@;
            if keep {
                out.push(self.entries[i].1);
            }
            proof {
                assert forall|id: u128| #[trigger] out@.contains(id) <==> exists|j: int|
                    0 <= j < i + 1 && self.entries@[j].1 == id && key_selected(#[trigger] self.entries@[j].0@, lo@, hi@, exact) by {
                    if out@.contains(id) {
                        let m = choose|m: int| 0 <= m < out@.len() && out@[m] == id;
                        if m < before.len() {
                            assert(before[m] == id);
                            assert(before.contains(id));
                        } else {
                            assert(self.entries@[i as int].1 == id);
                        }
                    }
                    if exists|j: int| 0 <= j < i + 1 && self.entries@[j].1 == id && key_selected(#[trigger] self.entries@[j].0@, lo@, hi@, exact) {
                        let j = choose|j: int| 0 <= j < i + 1 && self.entries@[j].1 == id && key_selected(#[trigger] self.entries@[j].0@, lo@, hi@, exact);
                        if j < i {
                            assert(before.contains(id));
                            let m = choose|m: int| 0 <= m < before.len() && before[m] == id;
                            assert(out@[m] == id);
                        } else {
                            assert(out@[out@.len() - 1] == id);
                        }
                    }
                }
            }
            i = i + 1;
        }
        proof {
            assert forall|id: u128| #[trigger] out@.contains(id) <==> exists|k: Seq<u8>|
                #[trigger] self.view().contains((k, id)) && key_selected(k, lo@, hi@, exact) by {
                let ps = pairs(self.entries@);
                if out@.contains(id) {
                    let j = choose|j: int| 0 <= j < self.entries@.len() && self.entries@[j].1 == id && key_selected(#[trigger] self.entries@[j].0@, lo@, hi@, exact);
                    assert(ps[j] == (self.entries@[j].0@, id));
                    assert(ps.contains((self.entries@[j].0@, id)));
                    assert(self.view().contains((self.entries@[j].0@, id)));
                    assert(key_selected(self.entries@[j].0@, lo@, hi@, exact));
                }
                if exists|k: Seq<u8>| #[trigger] self.view().contains((k, id)) && key_selected(k, lo@, hi@, exact) {
                    let k = choose|k: Seq<u8>| #[trigger] self.view().contains((k, id)) && key_selected(k, lo@, hi@, exact);
                    assert(ps.contains((k, id)));
                    let j = choose|j: int| 0 <= j < ps.len() && ps[j] == (k, id);
                    assert(self.entries@[j].0@ == k && self.entries@[j].1 == id);
                }
            }
        }
        out
    }

    /// Number of stored entries.
    pub closed spec fn size(&self) -> nat {
        self.entries@.len()
    }

    /// Number of stored pairs.
    pub fn len(&self) -> (r: usize)
        ensures
            r == self.size(),
    {
        self.entries.len()
    }

    pub fn clear(&mut self)
        ensures
            final(self).view() == Set::<(Seq<u8>, u128)>::empty(),
    {
        self.entries = Vec::new();
        proof {
            assert(self.view() =~= Set::empty());
        }
    }
}

/// Whether key `k` is selected: equal to `lo` when `exact`, else in `[lo, hi)`.
pub open spec fn key_selected(k: Seq<u8>, lo: Seq<u8>, hi: Seq<u8>, exact: bool) -> bool {
    if exact {
        k == lo
    } else {
        !bytes_lt(k, lo) && bytes_lt(k, hi)
    }
}

/// A name-keyed list has no repeated name.
pub open spec fn names_unique<T>(v: Seq<(String, T)>) -> bool {
    forall|i: int, j: int| 0 <= i < v.len() && 0 <= j < v.len() && i != j ==> v[i].0@ != v[j].0@
}

/// The entry of a name-keyed list under `n`, if any.
pub open spec fn entry_of<T>(v: Seq<(String, T)>, n: Seq<char>) -> Option<T> {
    if exists|i: int| 0 <= i < v.len() && v[i].0@ == n {
        Some(v[choose|i: int| 0 <= i < v.len() && v[i].0@ == n].1)
    } else {
        None
    }
}

proof fn lemma_entry_at<T>(v: Seq<(String, T)>, i: int)
    requires
        names_unique(v),
        0 <= i < v.len(),
    ensures
        entry_of(v, v[i].0@) == Some(v[i].1),
{
    let j = choose|j: int| 0 <= j < v.len() && v[j].0@ == v[i].0@;
    assert(j == i);
}

/// Position of `n` in a name-keyed list.
fn find_name<T>(v: &Vec<(String, T)>, n: &str) -> (r: Option<usize>)
    requires
        names_unique(v@),
    ensures
        match r {
            Some(i) => i < v@.len() && v@[i as int].0@ == n@ && entry_of(v@, n@) == Some(v@[i as int].1),
            None => entry_of(v@, n@) is None,
        },
{
    let mut i: usize = 0;
    while i < v.len()
        invariant
            names_unique(v@),
            i <= v@.len(),
            forall|j: int| 0 <= j < i ==> v@[j].0@ != n@,
        decreases v.len() - i,
    {
        if crate::graph::str_eq(v[i].0.as_str(), n) {
            proof {
                lemma_entry_at(v@, i as int);
            }
            return Some(i);
        }
        i = i + 1;
    }
    None
}

/// Named indices and the routes from labels and property keys to them.
#[derive(Debug)]
pub struct IndexManager {
    indices: Vec<(String, (IndexType, KeyIndex))>,
    label_indices: Vec<(String, String)>,
    property_indices: Vec<(String, String)>,
}

impl IndexManager {
    /// The index named `n`: its shape and its pairs.
    pub closed spec fn index(&self, n: Seq<char>) -> Option<(IndexType, Set<(Seq<u8>, u128)>)> {
        match entry_of(self.indices@, n) {
            Some(e) => Some((e.0, e.1.view())),
            None => None,
        }
    }

    /// The index that serves label `l`.
    pub closed spec fn label_route(&self, l: Seq<char>) -> Option<Seq<char>> {
        match entry_of(self.label_indices@, l) {
            Some(n) => Some(n@),
            None => None,
        }
    }

    /// The index that serves property key `k`.
    pub closed spec fn property_route(&self, k: Seq<char>) -> Option<Seq<char>> {
        match entry_of(self.property_indices@, k) {
            Some(n) => Some(n@),
            None => None,
        }
    }

    pub closed spec fn wf(&self) -> bool {
        &&& names_unique(self.indices@)
        &&& names_unique(self.label_indices@)
        &&& names_unique(self.property_indices@)
    }

    pub fn new() -> (r: IndexManager)
        ensures
            r.wf(),
            forall|n: Seq<char>| r.index(n) is None,
            forall|n: Seq<char>| r.label_route(n) is None && r.property_route(n) is None,
    {
        IndexManager { indices: Vec::new(), label_indices: Vec::new(), property_indices: Vec::new() }
    }

    /// The names of all indices.
    pub fn list_indices(&self) -> (r: Vec<String>)
        requires
            self.wf(),
        ensures
            forall|n: Seq<char>| #[trigger] self.index(n) is Some <==> exists|i: int| 0 <= i < r@.len() && r@[i]@ == n,
            forall|a: int, b: int| 0 <= a < r@.len() && 0 <= b < r@.len() && a != b ==> r@[a]@ != r@[b]@,
            r@.len() == self.count(),
    {
        let mut r: Vec<String> = Vec::new();
        let mut i: usize = 0;
        while i < self.indices.len()
            invariant
                i <= self.indices@.len(),
                r@.len() == i,
                forall|k: int| 0 <= k < i ==> #[trigger] r@[k]@ == self.indices@[k].0@,
            decreases self.indices.len() - i,
        {
            r.push(self.indices[i].0.clone());
            i = i + 1;
        }
        proof {
            assert forall|n: Seq<char>| #[trigger] self.index(n) is Some <==> exists|i: int| 0 <= i < r@.len() && r@[i]@ == n by {
                if exists|i: int| 0 <= i < r@.len() && r@[i]@ == n {
                    let i = choose|i: int| 0 <= i < r@.len() && r@[i]@ == n;
                    assert(self.indices@[i].0@ == n);
                }
                if self.index(n) is Some {
                    let i = choose|i: int| 0 <= i < self.indices@.len() && self.indices@[i].0@ == n;
                    assert(r@[i]@ == n);
                }
            }
        }
        r
    }

    /// Number of indices.
    pub closed spec fn count(&self) -> nat {
        self.indices@.len()
    }

    /// Number of indices (the length of `list_indices`).
    pub fn index_count(&self) -> (r: usize)
        requires
            self.wf(),
        ensures
            r == self.count(),
    {
        self.indices.len()
    }

    /// Whether an index serves label `l`.
    pub fn has_label_index(&self, label: &str) -> (r: bool)
        requires
            self.wf(),
        ensures
            r == self.label_route(label@) is Some,
    {
        find_name(&self.label_indices, label).is_some()
    }

    /// Whether an index serves property key `k`.
    pub fn has_property_index(&self, key: &str) -> (r: bool)
        requires
            self.wf(),
        ensures
            r == self.property_route(key@) is Some,
    {
        find_name(&self.property_indices, key).is_some()
    }

    /// Creates an empty index (replacing one of the same name) and routes its
    /// label (a label index serves the label of its own name) or its
    /// property key to it.
    pub fn create_index(&mut self, config: IndexConfig) -> (r: Result<(), DeepGraphError>)
        requires
            old(self).wf(),
        ensures
            final(self).wf(),
            r is Ok,
            final(self).index(config.name@) == Some((config.index_type, Set::<(Seq<u8>, u128)>::empty())),
            forall|n: Seq<char>| n != config.name@ ==> final(self).index(n) == old(self).index(n),
            config.is_label_index ==> final(self).label_route(config.name@) == Some(config.name@),
            !config.is_label_index && config.property_key is Some ==> final(self).property_route(
                config.property_key->Some_0@,
            ) == Some(config.name@),
            forall|l: Seq<char>| !(config.is_label_index && l == config.name@) ==> #[trigger] final(self).label_route(l)
                == old(self).label_route(l),
            forall|k: Seq<char>| !(!config.is_label_index && config.property_key is Some && k == config.property_key->Some_0@)
                ==> #[trigger] final(self).property_route(k) == old(self).property_route(k),
    {
        let IndexConfig { name, index_type, property_key, is_label_index } = config;
        let ghost nv = name@;
        if is_label_index {
            let route = name.clone();
            set_entry(&mut self.label_indices, name.clone(), route);
        } else {
            match property_key {
                Some(k) => {
                    set_entry(&mut self.property_indices, k, name.clone());
                },
                None => {},
            }
        }
        set_entry(&mut self.indices, name, (index_type, KeyIndex::new()));
        proof {
            assert forall|n: Seq<char>| n != nv implies self.index(n) == old(self).index(n) by {}
        }
        Ok(())
    }

    /// Removes the index named `name` and every route to it.
    pub fn drop_index(&mut self, name: &str) -> (r: Result<(), DeepGraphError>)
        requires
            old(self).wf(),
        ensures
            final(self).wf(),
            old(self).index(name@) is None ==> r is Err && *final(self) == *old(self),
            old(self).index(name@) is Some ==> r is Ok && final(self).index(name@) is None,
            forall|n: Seq<char>| n != name@ ==> final(self).index(n) == old(self).index(n),
            old(self).index(name@) is Some ==> forall|l: Seq<char>| #[trigger] final(self).label_route(l) == if old(self).label_route(l) == Some(name@) {
                None
            } else {
                old(self).label_route(l)
            },
            old(self).index(name@) is Some ==> forall|k: Seq<char>| #[trigger] final(self).property_route(k) == if old(self).property_route(k) == Some(name@) {
                None
            } else {
                old(self).property_route(k)
            },
    {
        match find_name(&self.indices, name) {
            Some(i) => {
                let ghost before = self.indices@;
                self.indices.remove(i);
                proof {
                    assert forall|a: int, b: int| 0 <= a < self.indices@.len() && 0 <= b < self.indices@.len() && a != b implies self.indices@[a].0@ != self.indices@[b].0@ by {
                        let a1 = if a < i { a } else { a + 1 };
                        let b1 = if b < i { b } else { b + 1 };
                        assert(self.indices@[a] == before[a1] && self.indices@[b] == before[b1]);
                    }
                    assert forall|a: int| 0 <= a < self.indices@.len() implies self.indices@[a].0@ != name@ by {
                        let a1 = if a < i { a } else { a + 1 };
                        assert(self.indices@[a] == before[a1]);
                    }
                    assert forall|n: Seq<char>| n != name@ implies entry_of(self.indices@, n) == entry_of(before, n) by {
                        if exists|a: int| 0 <= a < before.len() && before[a].0@ == n {
                            let a = choose|a: int| 0 <= a < before.len() && before[a].0@ == n;
                            lemma_entry_at(before, a);
                            assert(a != i);
                            let a2 = if a < i { a } else { a - 1 };
                            assert(self.indices@[a2] == before[a]);
                            lemma_entry_at(self.indices@, a2);
                        } else {
                            assert forall|a: int| 0 <= a < self.indices@.len() implies self.indices@[a].0@ != n by {
                                let a1 = if a < i { a } else { a + 1 };
                                assert(self.indices@[a] == before[a1]);
                            }
                        }
                    }
                }
                drop_routes(&mut self.label_indices, name);
                drop_routes(&mut self.property_indices, name);
                Ok(())
            },
            None => Err(DeepGraphError::StorageError("index not found".to_string())),
        }
    }

    /// Inserts `(label, node)` into the index that serves the label, if any.
    pub fn insert_label(&mut self, label: &str, node_id: u128) -> (r: Result<(), DeepGraphError>)
        requires
            old(self).wf(),
        ensures
            final(self).wf(),
            r is Ok,
            forall|l: Seq<char>| #[trigger] final(self).label_route(l) == old(self).label_route(l),
            forall|k: Seq<char>| #[trigger] final(self).property_route(k) == old(self).property_route(k),
            forall|n: Seq<char>| Some(n) != old(self).label_route(label@) ==> final(self).index(n) == old(self).index(n),
            old(self).label_route(label@) is Some && old(self).index(old(self).label_route(label@)->Some_0) is Some
                ==> final(self).index(old(self).label_route(label@)->Some_0) == Some(
                (
                    old(self).index(old(self).label_route(label@)->Some_0)->Some_0.0,
                    old(self).index(old(self).label_route(label@)->Some_0)->Some_0.1.insert((vstd::utf8::encode_utf8(label@), node_id)),
                ),
            ),
    {
        let key = bytes_of(label);
        self.insert_routed(true, label, key, node_id);
        Ok(())
    }

    /// Inserts the key of `value` with `node` into the index that serves
    /// property `key`, if any; a list or map value cannot be indexed.
    pub fn insert_property(&mut self, key: &str, value: &PropertyValue, node_id: u128) -> (r: Result<(), DeepGraphError>)
        requires
            old(self).wf(),
        ensures
            final(self).wf(),
            key_of(value@) is None ==> r is Err && *final(self) == *old(self),
            key_of(value@) is Some ==> r is Ok,
            forall|l: Seq<char>| #[trigger] final(self).label_route(l) == old(self).label_route(l),
            forall|k: Seq<char>| #[trigger] final(self).property_route(k) == old(self).property_route(k),
            forall|n: Seq<char>| Some(n) != old(self).property_route(key@) ==> final(self).index(n) == old(self).index(n),
            key_of(value@) is Some && old(self).property_route(key@) is Some && old(self).index(
                old(self).property_route(key@)->Some_0,
            ) is Some ==> final(self).index(old(self).property_route(key@)->Some_0) == Some(
                (
                    old(self).index(old(self).property_route(key@)->Some_0)->Some_0.0,
                    old(self).index(old(self).property_route(key@)->Some_0)->Some_0.1.insert(
                        (key_of(value@)->Some_0, node_id),
                    ),
                ),
            ),
    {
        match property_to_bytes(value) {
            Some(b) => {
                self.insert_routed(false, key, b, node_id);
                Ok(())
            },
            None => Err(DeepGraphError::InvalidOperation("lists and maps cannot be indexed".to_string())),
        }
    }

    fn insert_routed(&mut self, by_label: bool, route: &str, key: Vec<u8>, node_id: u128)
        requires
            old(self).wf(),
        ensures
            final(self).wf(),
            final(self).label_indices == old(self).label_indices,
            final(self).property_indices == old(self).property_indices,
            forall|n: Seq<char>|
                Some(n) != (if by_label { old(self).label_route(route@) } else { old(self).property_route(route@) })
                    ==> final(self).index(n) == old(self).index(n),
            ({
                let target = if by_label { old(self).label_route(route@) } else { old(self).property_route(route@) };
                target is Some && old(self).index(target->Some_0) is Some ==> final(self).index(target->Some_0) == Some(
                    (old(self).index(target->Some_0)->Some_0.0, old(self).index(target->Some_0)->Some_0.1.insert((key@, node_id))),
                )
            }),
    {
        let found = if by_label {
            find_name(&self.label_indices, route)
        } else {
            find_name(&self.property_indices, route)
        };
        let j = match found {
            Some(j) => j,
            None => {
                return;
            },
        };
        let pos = if by_label {
            find_name(&self.indices, self.label_indices[j].1.as_str())
        } else {
            find_name(&self.indices, self.property_indices[j].1.as_str())
        };
        match pos {
            Some(i) => {
                let ghost before = self.indices@;
                let mut entry = self.indices.remove(i);
                (entry.1).1.insert(key, node_id);
                self.indices.insert(i, entry);
                proof {
                    assert forall|a: int| 0 <= a < self.indices@.len() && a != i implies self.indices@[a] == before[a] by {}
                    assert forall|a: int| 0 <= a < self.indices@.len() implies self.indices@[a].0@ == before[a].0@ by {}
                    lemma_entry_at(self.indices@, i as int);
                    assert forall|n: Seq<char>| n != before[i as int].0@ implies entry_of(self.indices@, n) == entry_of(before, n) by {
                        if exists|a: int| 0 <= a < before.len() && before[a].0@ == n {
                            let a = choose|a: int| 0 <= a < before.len() && before[a].0@ == n;
                            lemma_entry_at(before, a);
                            lemma_entry_at(self.indices@, a);
                        } else {
                            assert forall|a: int| 0 <= a < self.indices@.len() implies self.indices@[a].0@ != n by {}
                        }
                    }
                }
            },
            None => {},
        }
    }

    /// The ids stored under `key` in the index that serves property `key`
    /// (none when no index serves it).
    pub fn lookup_property(&self, key: &str, value: &PropertyValue) -> (r: Result<Vec<u128>, DeepGraphError>)
        requires
            self.wf(),
        ensures
            key_of(value@) is None ==> r is Err,
            key_of(value@) is Some ==> r is Ok && match self.property_route(key@) {
                Some(n) => match self.index(n) {
                    Some(ix) => forall|id: u128| #[trigger] r->Ok_0@.contains(id) <==> ix.1.contains((key_of(value@)->Some_0, id)),
                    None => r->Ok_0@.len() == 0,
                },
                None => r->Ok_0@.len() == 0,
            },
    {
        let b = match property_to_bytes(value) {
            Some(b) => b,
            None => {
                return Err(DeepGraphError::InvalidOperation("lists and maps cannot be indexed".to_string()));
            },
        };
        match find_name(&self.property_indices, key) {
            Some(j) => match find_name(&self.indices, self.property_indices[j].1.as_str()) {
                Some(i) => Ok((self.indices[i].1).1.lookup(&b)),
                None => Ok(Vec::new()),
            },
            None => Ok(Vec::new()),
        }
    }

    /// The ids of nodes carrying `label`, from the index that serves it.
    pub fn lookup_label(&self, label: &str) -> (r: Vec<u128>)
        requires
            self.wf(),
        ensures
            match self.label_route(label@) {
                Some(n) => match self.index(n) {
                    Some(ix) => forall|id: u128| #[trigger] r@.contains(id) <==> ix.1.contains((vstd::utf8::encode_utf8(label@), id)),
                    None => r@.len() == 0,
                },
                None => r@.len() == 0,
            },
    {
        let b = bytes_of(label);
        match find_name(&self.label_indices, label) {
            Some(j) => match find_name(&self.indices, self.label_indices[j].1.as_str()) {
                Some(i) => (self.indices[i].1).1.lookup(&b),
                None => Vec::new(),
            },
            None => Vec::new(),
        }
    }

    /// The ids whose value of property `key` lies in `[start, end)` in key
    /// order. Only ordered indices answer ranges.
    pub fn range_property(&self, key: &str, start: &PropertyValue, end: &PropertyValue) -> (r: Result<Vec<u128>, DeepGraphError>)
        requires
            self.wf(),
        ensures
            match self.property_route(key@) {
                Some(n) => match self.index(n) {
                    Some(ix) => if ix.0 == IndexType::Hash {
                        r is Err
                    } else if key_of(start@) is None || key_of(end@) is None {
                        r is Err
                    } else {
                        r is Ok && forall|id: u128| #[trigger] r->Ok_0@.contains(id) <==> exists|k: Seq<u8>|
                            #[trigger] ix.1.contains((k, id)) && !bytes_lt(k, key_of(start@)->Some_0) && bytes_lt(k, key_of(end@)->Some_0)
                    },
                    None => r is Ok && r->Ok_0@.len() == 0,
                },
                None => r is Ok && r->Ok_0@.len() == 0,
            },
    {
        match find_name(&self.property_indices, key) {
            Some(j) => match find_name(&self.indices, self.property_indices[j].1.as_str()) {
                Some(i) => {
                    let entry = &self.indices[i].1;
                    proof {
                        assert(self.index(self.property_indices@[j as int].1@) == Some((entry.0, entry.1.view())));
                    }
                    match entry.0 {
                        IndexType::Hash => Err(DeepGraphError::InvalidOperation("Range queries not supported on hash indices".to_string())),
                        IndexType::BTree => {
                            let s = match property_to_bytes(start) {
                                Some(s) => s,
                                None => {
                                    return Err(DeepGraphError::InvalidOperation("lists and maps cannot be indexed".to_string()));
                                },
                            };
                            let e = match property_to_bytes(end) {
                                Some(e) => e,
                                None => {
                                    return Err(DeepGraphError::InvalidOperation("lists and maps cannot be indexed".to_string()));
                                },
                            };
                            let res = entry.1.range(&s, &e);
                            proof {
                                let ks = key_of(start@)->Some_0;
                                let ke = key_of(end@)->Some_0;
                                assert(s@ == ks && e@ == ke);
                                assert(self.property_route(key@) == Some(self.property_indices@[j as int].1@));
                                let ix = self.index(self.property_route(key@)->Some_0)->Some_0;
                                assert(ix.1 == entry.1.view());
                                assert forall|id: u128| #[trigger] res@.contains(id) <==> exists|k: Seq<u8>|
                                    #[trigger] entry.1.view().contains((k, id)) && !bytes_lt(k, ks) && bytes_lt(k, ke) by {}
                            }
                            Ok(res)
                        },
                    }
                },
                None => Ok(Vec::new()),
            },
            None => Ok(Vec::new()),
        }
    }
}

/// The UTF-8 bytes of a string.
fn bytes_of(s: &str) -> (r: Vec<u8>)
    ensures
        r@ == vstd::utf8::encode_utf8(s@),
{
    let b = s.as_bytes();
    let mut out: Vec<u8> = Vec::new();
    let mut i: usize = 0;
    while i < b.len()
        invariant
            i <= b@.len(),
            out@ == b@.subrange(0, i as int),
        decreases b.len() - i,
    {
        out.push(b[i]);
        proof {
            assert(out@ =~= b@.subrange(0, i + 1));
        }
        i = i + 1;
    }
    proof {
        assert(b@.subrange(0, b@.len() as int) =~= b@);
    }
    out
}

/// Sets the entry under `name` (replacing it in place, or appending).
pub(crate) fn set_entry<T>(v: &mut Vec<(String, T)>, name: String, value: T)
    requires
        names_unique(old(v)@),
    ensures
        names_unique(final(v)@),
        entry_of(final(v)@, name@) == Some(value),
        forall|n: Seq<char>| n != name@ ==> entry_of(final(v)@, n) == entry_of(old(v)@, n),
{
    let ghost nv = name@;
    match find_name(v, name.as_str()) {
        Some(i) => {
            v.set(i, (name, value));
            proof {
                lemma_entry_at(v@, i as int);
                assert forall|n: Seq<char>| n != nv implies entry_of(v@, n) == entry_of(old(v)@, n) by {
                    if exists|a: int| 0 <= a < old(v)@.len() && old(v)@[a].0@ == n {
                        let a = choose|a: int| 0 <= a < old(v)@.len() && old(v)@[a].0@ == n;
                        lemma_entry_at(old(v)@, a);
                        lemma_entry_at(v@, a);
                    } else {
                        assert forall|a: int| 0 <= a < v@.len() implies v@[a].0@ != n by {
                            if a != i {
                                assert(v@[a] == old(v)@[a]);
                            }
                        }
                    }
                }
            }
        },
        None => {
            v.push((name, value));
            proof {
                let o = old(v)@;
                assert forall|a: int| 0 <= a < o.len() implies o[a].0@ != nv by {
                    if o[a].0@ == nv {
                        assert(exists|b: int| 0 <= b < o.len() && o[b].0@ == nv);
                    }
                }
                assert forall|a: int, b: int| 0 <= a < v@.len() && 0 <= b < v@.len() && a != b implies v@[a].0@ != v@[b].0@ by {
                    if a < o.len() && b < o.len() {
                        assert(v@[a] == o[a] && v@[b] == o[b]);
                    } else if a < o.len() {
                        assert(v@[a] == o[a]);
                    } else {
                        assert(v@[b] == o[b]);
                    }
                }
                lemma_entry_at(v@, o.len() as int);
                assert forall|n: Seq<char>| n != nv implies entry_of(v@, n) == entry_of(o, n) by {
                    if exists|a: int| 0 <= a < o.len() && o[a].0@ == n {
                        let a = choose|a: int| 0 <= a < o.len() && o[a].0@ == n;
                        lemma_entry_at(o, a);
                        assert(v@[a] == o[a]);
                        lemma_entry_at(v@, a);
                    } else {
                        assert forall|a: int| 0 <= a < v@.len() implies v@[a].0@ != n by {
                            if a < o.len() {
                                assert(v@[a] == o[a]);
                            }
                        }
                    }
                }
            }
        },
    }
}

/// Removes the routes that lead to `target`.
fn drop_routes(v: &mut Vec<(String, String)>, target: &str)
    requires
        names_unique(old(v)@),
    ensures
        names_unique(final(v)@),
        forall|n: Seq<char>| #[trigger] entry_of(final(v)@, n) == match entry_of(old(v)@, n) {
            Some(t) => if t@ == target@ { None } else { Some(t) },
            None => None,
        },
{
    let mut kept: Vec<(String, String)> = Vec::new();
    let ghost mut idx: Seq<int> = Seq::empty();
    let mut i: usize = 0;
    while i < v.len()
        invariant
            names_unique(v@),
            names_unique(kept@),
            i <= v@.len(),
            idx.len() == kept@.len(),
            forall|a: int| 0 <= a < kept@.len() ==> 0 <= #[trigger] idx[a] < i && kept@[a] == v@[idx[a]] && v@[idx[a]].1@ != target@,
            forall|b: int| 0 <= b < i && v@[b].1@ != target@ ==> kept@.contains(#[trigger] v@[b]),
        decreases v.len() - i,
    {
        let ghost before = kept@;
        let ghost idx0 = idx;
        if !crate::graph::str_eq(v[i].1.as_str(), target) {
            kept.push((v[i].0.clone(), v[i].1.clone()));
            proof {
                idx = idx.push(i as int);
                let e = v@[i as int];
                assert(kept@[kept@.len() - 1] == e) by {
                    assert(kept@[kept@.len() - 1].0@ == e.0@ && kept@[kept@.len() - 1].1@ == e.1@);
                    assert(kept@[kept@.len() - 1].0 == e.0 && kept@[kept@.len() - 1].1 == e.1);
                }
                assert forall|a: int, c: int| 0 <= a < kept@.len() && 0 <= c < kept@.len() && a != c implies kept@[a].0@ != kept@[c].0@ by {
                    if a < before.len() && c < before.len() {
                        assert(kept@[a] == before[a] && kept@[c] == before[c]);
                    } else if a < before.len() {
                        let b = idx0[a];
                        assert(kept@[a] == before[a]);
                        assert(v@[b].0@ != v@[i as int].0@);
                    } else if c < before.len() {
                        let b = idx0[c];
                        assert(kept@[c] == before[c]);
                        assert(v@[b].0@ != v@[i as int].0@);
                    }
                }
                assert forall|a: int| 0 <= a < kept@.len() implies 0 <= #[trigger] idx[a] < i + 1 && kept@[a] == v@[idx[a]] && v@[idx[a]].1@ != target@ by {
                    if a < before.len() {
                        assert(kept@[a] == before[a]);
                        assert(idx[a] == idx0[a]);
                    }
                }
                assert forall|b: int| 0 <= b < i + 1 && v@[b].1@ != target@ implies kept@.contains(#[trigger] v@[b]) by {
                    if b < i {
                        assert(before.contains(v@[b]));
                        let a = choose|a: int| 0 <= a < before.len() && before[a] == v@[b];
                        assert(kept@[a] == before[a]);
                    } else {
                        assert(kept@[kept@.len() - 1] == v@[b]);
                    }
                }
            }
        }
        i = i + 1;
    }
    proof {
        let o = v@;
        let k = kept@;
        assert forall|n: Seq<char>| #[trigger] entry_of(k, n) == match entry_of(o, n) {
            Some(t) => if t@ == target@ { None } else { Some(t) },
            None => None,
        } by {
            if exists|a: int| 0 <= a < k.len() && k[a].0@ == n {
                let a = choose|a: int| 0 <= a < k.len() && k[a].0@ == n;
                let b = idx[a];
                lemma_entry_at(k, a);
                lemma_entry_at(o, b);
            } else if exists|b: int| 0 <= b < o.len() && o[b].0@ == n {
                let b = choose|b: int| 0 <= b < o.len() && o[b].0@ == n;
                lemma_entry_at(o, b);
                if o[b].1@ != target@ {
                    assert(k.contains(o[b]));
                    let a = choose|a: int| 0 <= a < k.len() && k[a] == o[b];
                    assert(k[a].0@ == n);
                }
            }
        }
    }
    *v = kept;
}

} // verus!
