//! Identifiers, property values, nodes and edges.
use vstd::prelude::*;

verus! {

broadcast use vstd::std_specs::vec::axiom_vec_index_decreases;

/// A fresh random 128-bit identifier.
/// Relies on uuid::Uuid::new_v4 (random version-4 UUID) and Uuid::as_u128.
#[verifier::external_body]
pub(crate) fn fresh_uuid() -> (r: u128) {
    uuid::Uuid::new_v4().as_u128()
}

/// Lowercase hexadecimal digit of `d < 16`.
pub open spec fn hex_digit(d: nat) -> char {
    if d < 10 {
        (('0' as nat) + d) as char
    } else {
        (('a' as nat) + d - 10) as char
    }
}

/// Number of hyphens before position `i` of the hyphenated form.
pub open spec fn hyphens_before(i: int) -> int {
    if i > 23 {
        4
    } else if i > 18 {
        3
    } else if i > 13 {
        2
    } else if i > 8 {
        1
    } else {
        0
    }
}

pub open spec fn pow16(k: nat) -> nat
    decreases k,
{
    if k == 0 {
        1
    } else {
        16 * pow16((k - 1) as nat)
    }
}

/// The hyphenated text form of a 128-bit UUID value: its 32 lowercase hex
/// digits, most significant first, with hyphens after the 8th, 12th, 16th and
/// 20th digit.
pub open spec fn uuid_text(v: u128) -> Seq<char> {
    Seq::new(
        36,
        |i: int|
            if i == 8 || i == 13 || i == 18 || i == 23 {
                '-'
            } else {
                hex_digit((v as nat / pow16((31 - (i - hyphens_before(i))) as nat)) % 16)
            },
    )
}

/// Relies on uuid::Uuid::from_u128 (big-endian bytes of `v`) and its
/// `Display`, which writes the lowercase hyphenated form.
#[verifier::external_body]
pub(crate) fn uuid_to_string(v: u128) -> (r: String)
    ensures
        r@ == uuid_text(v),
        r@.len() == 36,
{
    uuid::Uuid::from_u128(v).to_string()
}

/// Relies on `<str as PartialEq>::eq`: two string slices are equal exactly
/// when they hold the same characters.
#[verifier::external_body]
pub(crate) fn str_eq(a: &str, b: &str) -> (r: bool)
    ensures
        r == (a@ == b@),
{
    a == b
}

/// Opaque identifier of a node.
#[derive(Debug, Clone, Copy, PartialEq, Eq, Hash)]
pub struct NodeId(pub u128);

/// Opaque identifier of an edge.
#[derive(Debug, Clone, Copy, PartialEq, Eq, Hash)]
pub struct EdgeId(pub u128);

impl NodeId {
    /// A fresh random identifier.
    pub fn new() -> (r: NodeId) {
        NodeId(fresh_uuid())
    }

    pub fn from_u128(v: u128) -> (r: NodeId)
        ensures
            r.0 == v,
    {
        NodeId(v)
    }

    pub fn as_u128(&self) -> (r: u128)
        ensures
            r == self.0,
    {
        self.0
    }

    /// The hyphenated UUID text of this identifier.
    pub fn to_string(&self) -> (r: String)
        ensures
            r@ == uuid_text(self.0),
    {
        uuid_to_string(self.0)
    }
}

impl EdgeId {
    /// A fresh random identifier.
    pub fn new() -> (r: EdgeId) {
        EdgeId(fresh_uuid())
    }

    pub fn from_u128(v: u128) -> (r: EdgeId)
        ensures
            r.0 == v,
    {
        EdgeId(v)
    }

    pub fn as_u128(&self) -> (r: u128)
        ensures
            r == self.0,
    {
        self.0
    }

    /// The hyphenated UUID text of this identifier.
    pub fn to_string(&self) -> (r: String)
        ensures
            r@ == uuid_text(self.0),
    {
        uuid_to_string(self.0)
    }
}

/// Mathematical model of a property value.
pub enum PVal {
    Str(Seq<char>),
    Int(int),
    Float(u64),
    Bool(bool),
    Null,
    List(Seq<PVal>),
    Dict(Seq<(Seq<char>, PVal)>),
}

/// A tagged property value. A float is held as its IEEE-754 bit pattern.
#[derive(Debug)]
pub enum PropertyValue {
    String(String),
    Integer(i64),
    Float(u64),
    Boolean(bool),
    Null,
    List(Vec<PropertyValue>),
    Dict(Vec<(String, PropertyValue)>),
}

impl PropertyValue {
    pub open spec fn view(&self) -> PVal
        decreases self,
    {
        match self {
            PropertyValue::String(s) => PVal::Str(s@),
            PropertyValue::Integer(i) => PVal::Int(*i as int),
            PropertyValue::Float(b) => PVal::Float(*b),
            PropertyValue::Boolean(b) => PVal::Bool(*b),
            PropertyValue::Null => PVal::Null,
            PropertyValue::List(v) => PVal::List(
                Seq::new(v.len() as nat, |i: int| if 0 <= i < v.len() { v[i].view() } else { PVal::Null }),
            ),
            PropertyValue::Dict(v) => PVal::Dict(
                Seq::new(
                    v.len() as nat,
                    |i: int|
                        if 0 <= i < v.len() {
                            (v[i].0@, v[i].1.view())
                        } else {
                            (Seq::empty(), PVal::Null)
                        },
                ),
            ),
        }
    }

    pub fn is_null(&self) -> (r: bool)
        ensures
            r == (self@ == PVal::Null),
    {
        match self {
            PropertyValue::Null => true,
            _ => false,
        }
    }

    pub fn as_string(&self) -> (r: Option<&str>)
        ensures
            match self@ {
                PVal::Str(s) => r is Some && r->Some_0@ == s,
                _ => r is None,
            },
    {
        match self {
            PropertyValue::String(s) => Some(s.as_str()),
            _ => None,
        }
    }

    pub fn as_integer(&self) -> (r: Option<i64>)
        ensures
            match self@ {
                PVal::Int(i) => r is Some && r->Some_0 == i,
                _ => r is None,
            },
    {
        match self {
            PropertyValue::Integer(i) => Some(*i),
            _ => None,
        }
    }

    /// The IEEE-754 bit pattern of a float value.
    pub fn as_float_bits(&self) -> (r: Option<u64>)
        ensures
            match self@ {
                PVal::Float(b) => r == Some(b),
                _ => r is None,
            },
    {
        match self {
            PropertyValue::Float(b) => Some(*b),
            _ => None,
        }
    }

    pub fn as_boolean(&self) -> (r: Option<bool>)
        ensures
            match self@ {
                PVal::Bool(b) => r == Some(b),
                _ => r is None,
            },
    {
        match self {
            PropertyValue::Boolean(b) => Some(*b),
            _ => None,
        }
    }

    /// A copy of this value.
    #[verifier::loop_isolation(false)]
    pub fn deep_clone(&self) -> (r: PropertyValue)
        ensures
            r@ == self@,
        decreases self,
    {
        match self {
            PropertyValue::String(s) => PropertyValue::String(s.clone()),
            PropertyValue::Integer(i) => PropertyValue::Integer(*i),
            PropertyValue::Float(b) => PropertyValue::Float(*b),
            PropertyValue::Boolean(b) => PropertyValue::Boolean(*b),
            PropertyValue::Null => PropertyValue::Null,
            PropertyValue::List(v) => {
                let mut out: Vec<PropertyValue> = Vec::new();
                let mut i: usize = 0;
                while i < v.len()
                    invariant
                        i <= v.len(),
                        out@.len() == i,
                        forall|j: int| 0 <= j < i ==> (#[trigger] out@[j])@ == v@[j]@,
                    decreases v.len() - i,
                {
                    proof {
                        assert(decreases_to!(*self => v[i as int]));
                    }
                    out.push(v[i].deep_clone());
                    i = i + 1;
                }
                let r = PropertyValue::List(out);
                proof {
                    if let PVal::List(a) = r@ {
                        if let PVal::List(b) = self@ {
                            assert(a =~= b);
                        }
                    }
                }
                r
            },
            PropertyValue::Dict(v) => {
                let mut out: Vec<(String, PropertyValue)> = Vec::new();
                let mut i: usize = 0;
                while i < v.len()
                    invariant
                        i <= v.len(),
                        out@.len() == i,
                        forall|j: int|
                            0 <= j < i ==> (#[trigger] out@[j]).0@ == v@[j].0@ && out@[j].1@ == v@[j].1@,
                    decreases v.len() - i,
                {
                    proof {
                        assert(decreases_to!(*self => v[i as int]));
                    }
                    out.push((v[i].0.clone(), v[i].1.deep_clone()));
                    i = i + 1;
                }
                let r = PropertyValue::Dict(out);
                proof {
                    if let PVal::Dict(a) = r@ {
                        if let PVal::Dict(b) = self@ {
                            assert(a =~= b);
                        }
                    }
                }
                r
            },
        }
    }

    /// Whether the two values are equal (floats compare by bit pattern).
    #[verifier::loop_isolation(false)]
    pub fn equals(&self, other: &PropertyValue) -> (r: bool)
        ensures
            r == (self@ == other@),
        decreases self,
    {
        match (self, other) {
            (PropertyValue::String(a), PropertyValue::String(b)) => str_eq(a.as_str(), b.as_str()),
            (PropertyValue::Integer(a), PropertyValue::Integer(b)) => *a == *b,
            (PropertyValue::Float(a), PropertyValue::Float(b)) => *a == *b,
            (PropertyValue::Boolean(a), PropertyValue::Boolean(b)) => *a == *b,
            (PropertyValue::Null, PropertyValue::Null) => true,
            (PropertyValue::List(a), PropertyValue::List(b)) => {
                if a.len() != b.len() {
                    proof {
                        if let PVal::List(x) = self@ {
                            if let PVal::List(y) = other@ {
                                assert(x.len() != y.len());
                            }
                        }
                    }
                    return false;
                }
                let mut i: usize = 0;
                while i < a.len()
                    invariant
                        i <= a.len(),
                        a.len() == b.len(),
                        forall|j: int| 0 <= j < i ==> (#[trigger] a@[j])@ == b@[j]@,
                    decreases a.len() - i,
                {
                    proof {
                        assert(decreases_to!(*self => a[i as int]));
                    }
                    if !a[i].equals(&b[i]) {
                        proof {
                            if let PVal::List(x) = self@ {
                                if let PVal::List(y) = other@ {
                                    assert(x[i as int] != y[i as int]);
                                }
                            }
                        }
                        return false;
                    }
                    i = i + 1;
                }
                proof {
                    if let PVal::List(x) = self@ {
                        if let PVal::List(y) = other@ {
                            assert(x =~= y);
                        }
                    }
                }
                true
            },
            (PropertyValue::Dict(a), PropertyValue::Dict(b)) => {
                if a.len() != b.len() {
                    proof {
                        if let PVal::Dict(x) = self@ {
                            if let PVal::Dict(y) = other@ {
                                assert(x.len() != y.len());
                            }
                        }
                    }
                    return false;
                }
                let mut i: usize = 0;
                while i < a.len()
                    invariant
                        i <= a.len(),
                        a.len() == b.len(),
                        forall|j: int|
                            0 <= j < i ==> (#[trigger] a@[j]).0@ == b@[j].0@ && a@[j].1@ == b@[j].1@,
                    decreases a.len() - i,
                {
                    proof {
                        assert(decreases_to!(*self => a[i as int]));
                    }
                    if !str_eq(a[i].0.as_str(), b[i].0.as_str()) || !a[i].1.equals(&b[i].1) {
                        proof {
                            if let PVal::Dict(x) = self@ {
                                if let PVal::Dict(y) = other@ {
                                    assert(x[i as int] != y[i as int]);
                                }
                            }
                        }
                        return false;
                    }
                    i = i + 1;
                }
                proof {
                    if let PVal::Dict(x) = self@ {
                        if let PVal::Dict(y) = other@ {
                            assert(x =~= y);
                        }
                    }
                }
                true
            },
            _ => false,
        }
    }
}

/// A property list: key/value pairs with distinct keys.
pub type Properties = Vec<(String, PropertyValue)>;

/// Model of a property list.
pub open spec fn props_view(p: Seq<(String, PropertyValue)>) -> Seq<(Seq<char>, PVal)> {
    p.map_values(|e: (String, PropertyValue)| (e.0@, e.1@))
}

/// No key occurs twice.
pub open spec fn keys_unique(p: Seq<(Seq<char>, PVal)>) -> bool {
    forall|i: int, j: int| 0 <= i < p.len() && 0 <= j < p.len() && i != j ==> p[i].0 != p[j].0
}

/// The value stored under `k`, if any.
pub open spec fn prop_get(p: Seq<(Seq<char>, PVal)>, k: Seq<char>) -> Option<PVal> {
    if exists|i: int| 0 <= i < p.len() && p[i].0 == k {
        Some(p[choose|i: int| 0 <= i < p.len() && p[i].0 == k].1)
    } else {
        None
    }
}

/// Model of a label list.
pub open spec fn labels_view(l: Seq<String>) -> Seq<Seq<char>> {
    l.map_values(|s: String| s@)
}

/// Position of `k` in the property list.
pub fn props_find(p: &Properties, k: &str) -> (r: Option<usize>)
    ensures
        match r {
            Some(i) => i < p.len() && p@[i as int].0@ == k@,
            None => forall|i: int| 0 <= i < p.len() ==> p@[i].0@ != k@,
        },
{
    let mut i: usize = 0;
    while i < p.len()
        invariant
            i <= p.len(),
            forall|j: int| 0 <= j < i ==> p@[j].0@ != k@,
        decreases p.len() - i,
    {
        if str_eq(p[i].0.as_str(), k) {
            return Some(i);
        }
        i = i + 1;
    }
    None
}

/// Sets `k` to `v`, replacing an existing entry in place or appending one.
pub fn props_set(p: &mut Properties, k: String, v: PropertyValue)
    requires
        keys_unique(props_view(old(p)@)),
    ensures
        keys_unique(props_view(final(p)@)),
        prop_get(props_view(final(p)@), k@) == Some(v@),
        forall|k2: Seq<char>| k2 != k@ ==> prop_get(props_view(final(p)@), k2) == prop_get(props_view(old(p)@), k2),
{
    let ghost kv = k@;
    let ghost vv = v@;
    let found = props_find(p, k.as_str());
    match found {
        Some(i) => {
            p.set(i, (k, v));
            proof {
                let s = props_view(p@);
                assert(s[i as int].0 == kv);
                assert forall|a: int, b: int| 0 <= a < s.len() && 0 <= b < s.len() && a != b implies s[a].0 != s[b].0 by {
                    assert(props_view(old(p)@)[a].0 == old(p)@[a].0@);
                    assert(props_view(old(p)@)[b].0 == old(p)@[b].0@);
                }
                lemma_prop_get_unique(s, i as int);
                assert forall|k2: Seq<char>| k2 != kv implies prop_get(props_view(p@), k2) == prop_get(props_view(old(p)@), k2) by {
                    lemma_prop_get_same(props_view(p@), props_view(old(p)@), i as int, k2);
                }
            }
        },
        None => {
            p.push((k, v));
            proof {
                let s = props_view(p@);
                let o = props_view(old(p)@);
                assert(s.len() == o.len() + 1);
                assert forall|a: int| 0 <= a < o.len() implies s[a] == o[a] by {}
                assert forall|a: int, b: int| 0 <= a < s.len() && 0 <= b < s.len() && a != b implies s[a].0 != s[b].0 by {
                    if a < o.len() && b < o.len() {
                        assert(s[a] == o[a] && s[b] == o[b]);
                    }
                }
                lemma_prop_get_unique(s, o.len() as int);
                assert forall|k2: Seq<char>| k2 != kv implies prop_get(s, k2) == prop_get(o, k2) by {
                    if exists|j: int| 0 <= j < o.len() && o[j].0 == k2 {
                        let j = choose|j: int| 0 <= j < o.len() && o[j].0 == k2;
                        assert(s[j] == o[j]);
                        lemma_prop_get_unique(s, j);
                        lemma_prop_get_unique(o, j);
                    } else {
                        assert forall|j: int| 0 <= j < s.len() implies s[j].0 != k2 by {
                            if j < o.len() {
                                assert(s[j] == o[j]);
                            }
                        }
                    }
                }
            }
        },
    }
}

/// Removes the entry under `k`, returning its value.
pub fn props_remove(p: &mut Properties, k: &str) -> (r: Option<PropertyValue>)
    requires
        keys_unique(props_view(old(p)@)),
    ensures
        keys_unique(props_view(final(p)@)),
        prop_get(props_view(final(p)@), k@) is None,
        match r {
            Some(v) => prop_get(props_view(old(p)@), k@) == Some(v@),
            None => prop_get(props_view(old(p)@), k@) is None,
        },
        forall|k2: Seq<char>| k2 != k@ ==> prop_get(props_view(final(p)@), k2) == prop_get(props_view(old(p)@), k2),
{
    let found = props_find(p, k);
    match found {
        Some(i) => {
            let e = p.remove(i);
            proof {
                let s = props_view(p@);
                let o = props_view(old(p)@);
                assert(s =~= o.remove(i as int));
                lemma_prop_get_unique(o, i as int);
                assert forall|a: int, b: int| 0 <= a < s.len() && 0 <= b < s.len() && a != b implies s[a].0 != s[b].0 by {
                    let a1 = if a < i { a } else { a + 1 };
                    let b1 = if b < i { b } else { b + 1 };
                    assert(s[a] == o[a1] && s[b] == o[b1]);
                }
                assert forall|j: int| 0 <= j < s.len() implies s[j].0 != k@ by {
                    let j1 = if j < i { j } else { j + 1 };
                    assert(s[j] == o[j1]);
                }
                assert forall|k2: Seq<char>| k2 != k@ implies prop_get(s, k2) == prop_get(o, k2) by {
                    if exists|j: int| 0 <= j < o.len() && o[j].0 == k2 {
                        let j = choose|j: int| 0 <= j < o.len() && o[j].0 == k2;
                        lemma_prop_get_unique(o, j);
                        let j2 = if j < i { j } else { j - 1 };
                        assert(s[j2] == o[j]);
                        lemma_prop_get_unique(s, j2);
                    } else {
                        assert forall|j: int| 0 <= j < s.len() implies s[j].0 != k2 by {
                            let j1 = if j < i { j } else { j + 1 };
                            assert(s[j] == o[j1]);
                        }
                    }
                }
            }
            Some(e.1)
        },
        None => {
            proof {
                assert forall|j: int| 0 <= j < props_view(p@).len() implies props_view(p@)[j].0 != k@ by {
                    assert(props_view(p@)[j].0 == p@[j].0@);
                }
            }
            None
        },
    }
}

/// In a list with distinct keys, the entry at `i` is what `prop_get` finds.
pub proof fn lemma_prop_get_unique(p: Seq<(Seq<char>, PVal)>, i: int)
    requires
        keys_unique(p),
        0 <= i < p.len(),
    ensures
        prop_get(p, p[i].0) == Some(p[i].1),
{
    let j = choose|j: int| 0 <= j < p.len() && p[j].0 == p[i].0;
    assert(j == i);
}

/// Replacing the entry at `i` leaves every other key's lookup unchanged.
proof fn lemma_prop_get_same(s: Seq<(Seq<char>, PVal)>, o: Seq<(Seq<char>, PVal)>, i: int, k2: Seq<char>)
    requires
        keys_unique(s),
        keys_unique(o),
        s.len() == o.len(),
        0 <= i < s.len(),
        s[i].0 == o[i].0,
        k2 != s[i].0,
        forall|j: int| 0 <= j < s.len() && j != i ==> s[j] == o[j],
    ensures
        prop_get(s, k2) == prop_get(o, k2),
{
    if exists|j: int| 0 <= j < o.len() && o[j].0 == k2 {
        let j = choose|j: int| 0 <= j < o.len() && o[j].0 == k2;
        lemma_prop_get_unique(o, j);
        lemma_prop_get_unique(s, j);
    } else {
        assert forall|j: int| 0 <= j < s.len() implies s[j].0 != k2 by {
            if j != i {
                assert(s[j] == o[j]);
            }
        }
    }
}

/// A copy of a property list.
pub fn props_clone(p: &Properties) -> (r: Properties)
    ensures
        props_view(r@) == props_view(p@),
{
    let mut out: Properties = Vec::new();
    let mut i: usize = 0;
    while i < p.len()
        invariant
            i <= p.len(),
            out@.len() == i,
            forall|j: int| 0 <= j < i ==> (#[trigger] out@[j]).0@ == p@[j].0@ && out@[j].1@ == p@[j].1@,
        decreases p.len() - i,
    {
        out.push((p[i].0.clone(), p[i].1.deep_clone()));
        i = i + 1;
    }
    proof {
        assert(props_view(out@) =~= props_view(p@));
    }
    out
}

/// A copy of a label list.
pub fn labels_clone(l: &Vec<String>) -> (r: Vec<String>)
    ensures
        labels_view(r@) == labels_view(l@),
{
    let mut out: Vec<String> = Vec::new();
    let mut i: usize = 0;
    while i < l.len()
        invariant
            i <= l.len(),
            out@.len() == i,
            forall|j: int| 0 <= j < i ==> (#[trigger] out@[j])@ == l@[j]@,
        decreases l.len() - i,
    {
        out.push(l[i].clone());
        i = i + 1;
    }
    proof {
        assert(labels_view(out@) =~= labels_view(l@));
    }
    out
}

/// Model of a node.
pub struct NodeView {
    pub id: u128,
    pub labels: Seq<Seq<char>>,
    pub props: Seq<(Seq<char>, PVal)>,
}

/// A labelled node with a property list.
#[derive(Debug)]
pub struct Node {
    pub id: NodeId,
    pub labels: Vec<String>,
    pub properties: Properties,
}

impl View for Node {
    type V = NodeView;

    open spec fn view(&self) -> NodeView {
        NodeView { id: self.id.0, labels: labels_view(self.labels@), props: props_view(self.properties@) }
    }
}

/// Labels without repetition and property keys without repetition.
pub open spec fn node_wf(n: NodeView) -> bool {
    &&& n.labels.no_duplicates()
    &&& keys_unique(n.props)
}

impl Node {
    /// A node with a fresh identifier, the given labels (repeats dropped) and no
    /// properties.
    pub fn new(labels: Vec<String>) -> (r: Node)
        ensures
            node_wf(r@),
            r@.props.len() == 0,
            forall|l: Seq<char>| r@.labels.contains(l) <==> labels_view(labels@).contains(l),
    {
        Node::with_id(NodeId::new(), labels)
    }

    /// A node with the given identifier and labels (repeats dropped).
    pub fn with_id(id: NodeId, labels: Vec<String>) -> (r: Node)
        ensures
            node_wf(r@),
            r@.id == id.0,
            r@.props.len() == 0,
            forall|l: Seq<char>| r@.labels.contains(l) <==> labels_view(labels@).contains(l),
    {
        let mut node = Node { id, labels: Vec::new(), properties: Vec::new() };
        let mut i: usize = 0;
        proof {
            assert(node@.labels =~= Seq::empty());
            assert(node@.props =~= Seq::empty());
        }
        while i < labels.len()
            invariant
                i <= labels.len(),
                node_wf(node@),
                node@.id == id.0,
                node@.props.len() == 0,
                forall|l: Seq<char>| node@.labels.contains(l) <==> exists|j: int| 0 <= j < i && labels@[j]@ == l,
            decreases labels.len() - i,
        {
            let ghost before = node@.labels;
            node.add_label(labels[i].clone());
            proof {
                let x = labels@[i as int]@;
                assert forall|l: Seq<char>| node@.labels.contains(l) <==> (before.contains(l) || l == x) by {
                    if !before.contains(x) {
                        assert(node@.labels[before.len() as int] == x);
                        if node@.labels.contains(l) {
                            let j = choose|j: int| 0 <= j < node@.labels.len() && node@.labels[j] == l;
                            if j < before.len() {
                                assert(before[j] == l);
                            }
                        }
                        if before.contains(l) {
                            let j = choose|j: int| 0 <= j < before.len() && before[j] == l;
                            assert(node@.labels[j] == l);
                        }
                    }
                }
                assert forall|l: Seq<char>| node@.labels.contains(l) <==> exists|j: int| 0 <= j < i + 1 && labels@[j]@ == l by {
                    if l == x {
                        assert(labels@[i as int]@ == l);
                    }
                    if before.contains(l) {
                        let j = choose|j: int| 0 <= j < i && labels@[j]@ == l;
                        assert(0 <= j < i + 1 && labels@[j]@ == l);
                    }
                    if exists|j: int| 0 <= j < i + 1 && labels@[j]@ == l {
                        let j = choose|j: int| 0 <= j < i + 1 && labels@[j]@ == l;
                        if j < i {
                            assert(exists|j2: int| 0 <= j2 < i && labels@[j2]@ == l);
                        }
                    }
                }
            }
            i = i + 1;
        }
        proof {
            assert forall|l: Seq<char>| node@.labels.contains(l) <==> labels_view(labels@).contains(l) by {
                if labels_view(labels@).contains(l) {
                    let j = choose|j: int| 0 <= j < labels_view(labels@).len() && labels_view(labels@)[j] == l;
                    assert(labels@[j]@ == l);
                }
                if node@.labels.contains(l) {
                    let j = choose|j: int| 0 <= j < i && labels@[j]@ == l;
                    assert(labels_view(labels@)[j] == l);
                }
            }
        }
        node
    }

    pub fn id(&self) -> (r: NodeId)
        ensures
            r == self.id,
    {
        self.id
    }

    pub fn labels(&self) -> (r: &Vec<String>)
        ensures
            labels_view(r@) == self@.labels,
    {
        &self.labels
    }

    /// Adds a label unless the node already carries it.
    pub fn add_label(&mut self, label: String)
        requires
            node_wf(old(self)@),
        ensures
            node_wf(final(self)@),
            final(self)@.id == old(self)@.id,
            final(self)@.props == old(self)@.props,
            final(self)@.labels == if old(self)@.labels.contains(label@) {
                old(self)@.labels
            } else {
                old(self)@.labels.push(label@)
            },
    {
        if !self.has_label(label.as_str()) {
            self.labels.push(label);
            proof {
                assert(labels_view(self.labels@) =~= labels_view(old(self).labels@).push(label@));
            }
        }
    }

    /// Removes a label; returns whether the node carried it.
    pub fn remove_label(&mut self, label: &str) -> (r: bool)
        requires
            node_wf(old(self)@),
        ensures
            node_wf(final(self)@),
            r == old(self)@.labels.contains(label@),
            final(self)@.id == old(self)@.id,
            final(self)@.props == old(self)@.props,
            !final(self)@.labels.contains(label@),
            forall|l: Seq<char>| l != label@ ==> (final(self)@.labels.contains(l) <==> old(self)@.labels.contains(l)),
    {
        let mut i: usize = 0;
        while i < self.labels.len()
            invariant
                self == old(self),
                node_wf(old(self)@),
                i <= self.labels.len(),
                forall|j: int| 0 <= j < i ==> self.labels@[j]@ != label@,
            decreases self.labels.len() - i,
        {
            if str_eq(self.labels[i].as_str(), label) {
                self.labels.remove(i);
                proof {
                    let o = labels_view(old(self).labels@);
                    assert(labels_view(self.labels@) =~= o.remove(i as int));
                    assert(o[i as int] == label@);
                    let n = labels_view(self.labels@);
                    assert(o.no_duplicates());
                    assert forall|a: int, b: int| 0 <= a < n.len() && 0 <= b < n.len() && a != b implies n[a] != n[b] by {
                        let a1 = if a < i { a } else { a + 1 };
                        let b1 = if b < i { b } else { b + 1 };
                        assert(n[a] == o[a1] && n[b] == o[b1]);
                        assert(o[a1] != o[b1]);
                    }
                    assert forall|l: Seq<char>| l != label@ implies (labels_view(self.labels@).contains(l) <==> o.contains(l)) by {
                        if o.contains(l) {
                            let j = choose|j: int| 0 <= j < o.len() && o[j] == l;
                            if j < i {
                                assert(labels_view(self.labels@)[j] == l);
                            } else {
                                assert(labels_view(self.labels@)[j - 1] == l);
                            }
                        }
                    }
                    assert(!labels_view(self.labels@).contains(label@)) by {
                        if labels_view(self.labels@).contains(label@) {
                            let j = choose|j: int| 0 <= j < labels_view(self.labels@).len() && labels_view(self.labels@)[j] == label@;
                            if j < i {
                                assert(o[j] == label@);
                            } else {
                                assert(o[j + 1] == label@);
                                assert(o[j + 1] == o[i as int]);
                                assert(o[j + 1] != o[i as int]);
                            }
                        }
                    }
                }
                return true;
            }
            i = i + 1;
        }
        proof {
            assert(!labels_view(self.labels@).contains(label@)) by {
                if labels_view(self.labels@).contains(label@) {
                    let j = choose|j: int| 0 <= j < labels_view(self.labels@).len() && labels_view(self.labels@)[j] == label@;
                    assert(self.labels@[j]@ == label@);
                }
            }
        }
        false
    }

    /// Whether the node carries the label.
    pub fn has_label(&self, label: &str) -> (r: bool)
        ensures
            r == self@.labels.contains(label@),
    {
        let mut i: usize = 0;
        while i < self.labels.len()
            invariant
                i <= self.labels.len(),
                forall|j: int| 0 <= j < i ==> self.labels@[j]@ != label@,
            decreases self.labels.len() - i,
        {
            if str_eq(self.labels[i].as_str(), label) {
                proof {
                    assert(self@.labels[i as int] == label@);
                }
                return true;
            }
            i = i + 1;
        }
        proof {
            if self@.labels.contains(label@) {
                let j = choose|j: int| 0 <= j < self@.labels.len() && self@.labels[j] == label@;
                assert(self.labels@[j]@ == label@);
            }
        }
        false
    }

    pub fn properties(&self) -> (r: &Properties)
        ensures
            props_view(r@) == self@.props,
    {
        &self.properties
    }

    /// The value of a property, if set.
    pub fn get_property(&self, key: &str) -> (r: Option<&PropertyValue>)
        requires
            node_wf(self@),
        ensures
            match r {
                Some(v) => prop_get(self@.props, key@) == Some(v@),
                None => prop_get(self@.props, key@) is None,
            },
    {
        match props_find(&self.properties, key) {
            Some(i) => {
                proof {
                    lemma_prop_get_unique(self@.props, i as int);
                }
                Some(&self.properties[i].1)
            },
            None => {
                proof {
                    assert forall|j: int| 0 <= j < self@.props.len() implies self@.props[j].0 != key@ by {
                        assert(self@.props[j].0 == self.properties@[j].0@);
                    }
                }
                None
            },
        }
    }

    /// Sets a property, replacing any previous value.
    pub fn set_property(&mut self, key: String, value: PropertyValue)
        requires
            node_wf(old(self)@),
        ensures
            node_wf(final(self)@),
            final(self)@.id == old(self)@.id,
            final(self)@.labels == old(self)@.labels,
            prop_get(final(self)@.props, key@) == Some(value@),
            forall|k: Seq<char>| k != key@ ==> prop_get(final(self)@.props, k) == prop_get(old(self)@.props, k),
    {
        props_set(&mut self.properties, key, value);
    }

    /// Removes a property, returning its value.
    pub fn remove_property(&mut self, key: &str) -> (r: Option<PropertyValue>)
        requires
            node_wf(old(self)@),
        ensures
            node_wf(final(self)@),
            final(self)@.id == old(self)@.id,
            final(self)@.labels == old(self)@.labels,
            prop_get(final(self)@.props, key@) is None,
            match r {
                Some(v) => prop_get(old(self)@.props, key@) == Some(v@),
                None => prop_get(old(self)@.props, key@) is None,
            },
            forall|k: Seq<char>| k != key@ ==> prop_get(final(self)@.props, k) == prop_get(old(self)@.props, k),
    {
        props_remove(&mut self.properties, key)
    }

    /// Whether a property is set.
    pub fn has_property(&self, key: &str) -> (r: bool)
        requires
            node_wf(self@),
        ensures
            r == prop_get(self@.props, key@) is Some,
    {
        self.get_property(key).is_some()
    }

    /// A copy of this node.
    pub fn deep_clone(&self) -> (r: Node)
        ensures
            r@ == self@,
    {
        Node { id: self.id, labels: labels_clone(&self.labels), properties: props_clone(&self.properties) }
    }
}

/// Model of an edge.
pub struct EdgeView {
    pub id: u128,
    pub from: u128,
    pub to: u128,
    pub rel_type: Seq<char>,
    pub props: Seq<(Seq<char>, PVal)>,
}

/// A typed directed edge with a property list.
#[derive(Debug)]
pub struct Edge {
    pub id: EdgeId,
    pub from: NodeId,
    pub to: NodeId,
    pub relationship_type: String,
    pub properties: Properties,
}

impl View for Edge {
    type V = EdgeView;

    open spec fn view(&self) -> EdgeView {
        EdgeView {
            id: self.id.0,
            from: self.from.0,
            to: self.to.0,
            rel_type: self.relationship_type@,
            props: props_view(self.properties@),
        }
    }
}

/// Property keys without repetition.
pub open spec fn edge_wf(e: EdgeView) -> bool {
    keys_unique(e.props)
}

impl Edge {
    /// An edge with a fresh identifier and no properties.
    pub fn new(from: NodeId, to: NodeId, relationship_type: String) -> (r: Edge)
        ensures
            edge_wf(r@),
            r@.from == from.0,
            r@.to == to.0,
            r@.rel_type == relationship_type@,
            r@.props.len() == 0,
    {
        Edge::with_id(EdgeId::new(), from, to, relationship_type)
    }

    /// An edge with the given identifier and no properties.
    pub fn with_id(id: EdgeId, from: NodeId, to: NodeId, relationship_type: String) -> (r: Edge)
        ensures
            edge_wf(r@),
            r@.id == id.0,
            r@.from == from.0,
            r@.to == to.0,
            r@.rel_type == relationship_type@,
            r@.props.len() == 0,
    {
        let r = Edge { id, from, to, relationship_type, properties: Vec::new() };
        proof {
            assert(r@.props =~= Seq::empty());
        }
        r
    }

    pub fn id(&self) -> (r: EdgeId)
        ensures
            r == self.id,
    {
        self.id
    }

    pub fn from(&self) -> (r: NodeId)
        ensures
            r == self.from,
    {
        self.from
    }

    pub fn to(&self) -> (r: NodeId)
        ensures
            r == self.to,
    {
        self.to
    }

    pub fn relationship_type(&self) -> (r: &str)
        ensures
            r@ == self@.rel_type,
    {
        self.relationship_type.as_str()
    }

    pub fn properties(&self) -> (r: &Properties)
        ensures
            props_view(r@) == self@.props,
    {
        &self.properties
    }

    /// The value of a property, if set.
    pub fn get_property(&self, key: &str) -> (r: Option<&PropertyValue>)
        requires
            edge_wf(self@),
        ensures
            match r {
                Some(v) => prop_get(self@.props, key@) == Some(v@),
                None => prop_get(self@.props, key@) is None,
            },
    {
        match props_find(&self.properties, key) {
            Some(i) => {
                proof {
                    lemma_prop_get_unique(self@.props, i as int);
                }
                Some(&self.properties[i].1)
            },
            None => {
                proof {
                    assert forall|j: int| 0 <= j < self@.props.len() implies self@.props[j].0 != key@ by {
                        assert(self@.props[j].0 == self.properties@[j].0@);
                    }
                }
                None
            },
        }
    }

    /// Sets a property, replacing any previous value.
    pub fn set_property(&mut self, key: String, value: PropertyValue)
        requires
            edge_wf(old(self)@),
        ensures
            edge_wf(final(self)@),
            final(self)@.id == old(self)@.id,
            final(self)@.from == old(self)@.from,
            final(self)@.to == old(self)@.to,
            final(self)@.rel_type == old(self)@.rel_type,
            prop_get(final(self)@.props, key@) == Some(value@),
            forall|k: Seq<char>| k != key@ ==> prop_get(final(self)@.props, k) == prop_get(old(self)@.props, k),
    {
        props_set(&mut self.properties, key, value);
    }

    /// Removes a property, returning its value.
    pub fn remove_property(&mut self, key: &str) -> (r: Option<PropertyValue>)
        requires
            edge_wf(old(self)@),
        ensures
            edge_wf(final(self)@),
            final(self)@.id == old(self)@.id,
            final(self)@.from == old(self)@.from,
            final(self)@.to == old(self)@.to,
            final(self)@.rel_type == old(self)@.rel_type,
            prop_get(final(self)@.props, key@) is None,
            match r {
                Some(v) => prop_get(old(self)@.props, key@) == Some(v@),
                None => prop_get(old(self)@.props, key@) is None,
            },
            forall|k: Seq<char>| k != key@ ==> prop_get(final(self)@.props, k) == prop_get(old(self)@.props, k),
    {
        props_remove(&mut self.properties, key)
    }

    /// Whether a property is set.
    pub fn has_property(&self, key: &str) -> (r: bool)
        requires
            edge_wf(self@),
        ensures
            r == prop_get(self@.props, key@) is Some,
    {
        self.get_property(key).is_some()
    }

    /// A copy of this edge.
    pub fn deep_clone(&self) -> (r: Edge)
        ensures
            r@ == self@,
    {
        Edge {
            id: self.id,
            from: self.from,
            to: self.to,
            relationship_type: self.relationship_type.clone(),
            properties: props_clone(&self.properties),
        }
    }
}

/// Whether no two labels are equal.
pub fn labels_distinct(l: &Vec<String>) -> (r: bool)
    ensures
        r == labels_view(l@).no_duplicates(),
{
    let ghost v = labels_view(l@);
    let mut i: usize = 0;
    while i < l.len()
        invariant
            v == labels_view(l@),
            i <= l.len(),
            forall|a: int, b: int| 0 <= a < i && 0 <= b < l.len() && a != b ==> v[a] != v[b],
        decreases l.len() - i,
    {
        let mut j: usize = 0;
        while j < l.len()
            invariant
                v == labels_view(l@),
                i < l.len(),
                j <= l.len(),
                forall|a: int, b: int| 0 <= a < i && 0 <= b < l.len() && a != b ==> v[a] != v[b],
                forall|b: int| 0 <= b < j && b != i ==> v[i as int] != v[b],
            decreases l.len() - j,
        {
            if j != i && str_eq(l[i].as_str(), l[j].as_str()) {
                proof {
                    assert(v[i as int] == v[j as int]);
                }
                return false;
            }
            j = j + 1;
        }
        i = i + 1;
    }
    true
}

/// Whether no two property keys are equal.
pub fn keys_distinct(p: &Properties) -> (r: bool)
    ensures
        r == keys_unique(props_view(p@)),
{
    let ghost v = props_view(p@);
    let mut i: usize = 0;
    while i < p.len()
        invariant
            v == props_view(p@),
            i <= p.len(),
            forall|a: int, b: int| 0 <= a < i && 0 <= b < p.len() && a != b ==> v[a].0 != v[b].0,
        decreases p.len() - i,
    {
        let mut j: usize = 0;
        while j < p.len()
            invariant
                v == props_view(p@),
                i < p.len(),
                j <= p.len(),
                forall|a: int, b: int| 0 <= a < i && 0 <= b < p.len() && a != b ==> v[a].0 != v[b].0,
                forall|b: int| 0 <= b < j && b != i ==> v[i as int].0 != v[b].0,
            decreases p.len() - j,
        {
            if j != i && str_eq(p[i].0.as_str(), p[j].0.as_str()) {
                proof {
                    assert(v[i as int].0 == v[j as int].0);
                }
                return false;
            }
            j = j + 1;
        }
        i = i + 1;
    }
    true
}

impl Node {
    /// Whether labels and property keys are free of repeats.
    pub fn is_well_formed(&self) -> (r: bool)
        ensures
            r == node_wf(self@),
    {
        labels_distinct(&self.labels) && keys_distinct(&self.properties)
    }
}

impl Edge {
    /// Whether property keys are free of repeats.
    pub fn is_well_formed(&self) -> (r: bool)
        ensures
            r == edge_wf(self@),
    {
        keys_distinct(&self.properties)
    }
}

} // verus!
