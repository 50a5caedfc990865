//! Field values of an item and string-keyed maps.
//!
//! `Value` holds what a field of an item (or a node of a catalogue's JSON
//! answer) can be. A number keeps its JSON text, so that integers and
//! decimals travel through the library unchanged.
use vstd::prelude::*;
use crate::text::{chars_of, owned, parse_i64, parse_i64_spec, seq_eq, views};
use serde_json::Value as JsonValue;

verus! {

/// A JSON-like value.
#[derive(Debug)]
pub enum Value {
    Null,
    Bool(bool),
    /// A number, as its JSON text (`4`, `-12`, `4.5`).
    Number(String),
    Str(String),
    Array(Vec<Value>),
    /// Members in their order; a key occurs at most once.
    Object(Vec<(String, Value)>),
}

/// What a `Value` stands for, with every string taken by its characters.
pub ghost enum ValueV {
    Null,
    Bool(bool),
    Number(Seq<char>),
    Str(Seq<char>),
    Array(Seq<ValueV>),
    Object(Seq<(Seq<char>, ValueV)>),
}

/// The abstract value of `v`.
pub open spec fn vview(v: Value) -> ValueV
    decreases v,
{
    match v {
        Value::Null => ValueV::Null,
        Value::Bool(b) => ValueV::Bool(b),
        Value::Number(t) => ValueV::Number(t@),
        Value::Str(t) => ValueV::Str(t@),
        Value::Array(a) => {
            proof {
                assert(decreases_to!(v => a));
                assert(decreases_to!(a => a@));
            }
            ValueV::Array(vviews(a@))
        },
        Value::Object(m) => {
            proof {
                assert(decreases_to!(v => m));
                assert(decreases_to!(m => m@));
            }
            ValueV::Object(mviews(m@))
        },
    }
}

/// The abstract values of a list of values.
pub open spec fn vviews(s: Seq<Value>) -> Seq<ValueV>
    decreases s,
{
    if s.len() == 0 {
        Seq::empty()
    } else {
        proof {
            assert(decreases_to!(s => s.subrange(0, s.len() - 1)));
            assert(decreases_to!(s => s[s.len() - 1]));
        }
        vviews(s.subrange(0, s.len() - 1)).push(vview(s[s.len() - 1]))
    }
}

/// The abstract members of an object.
pub open spec fn mviews(s: Seq<(String, Value)>) -> Seq<(Seq<char>, ValueV)>
    decreases s,
{
    if s.len() == 0 {
        Seq::empty()
    } else {
        proof {
            assert(decreases_to!(s => s.subrange(0, s.len() - 1)));
            assert(decreases_to!(s => s[s.len() - 1]));
            assert(decreases_to!(s[s.len() - 1] => s[s.len() - 1].1));
        }
        mviews(s.subrange(0, s.len() - 1)).push((s[s.len() - 1].0@, vview(s[s.len() - 1].1)))
    }
}

// ---------------------------------------------------------------------------
// String-keyed map
// ---------------------------------------------------------------------------

/// A map from strings to values, kept as a list of distinct keys.
#[derive(Debug, Clone)]
pub struct StrMap<V> {
    pub entries: Vec<(String, V)>,
}

pub open spec fn has_key<V>(s: Seq<(String, V)>, k: Seq<char>) -> bool {
    exists|i: int| 0 <= i < s.len() && (#[trigger] s[i]).0@ == k
}

pub open spec fn key_index<V>(s: Seq<(String, V)>, k: Seq<char>) -> int {
    choose|i: int| 0 <= i < s.len() && (#[trigger] s[i]).0@ == k
}

pub open spec fn distinct_keys<V>(s: Seq<(String, V)>) -> bool {
    forall|i: int, j: int| 0 <= i < s.len() && 0 <= j < s.len() && i != j ==> (#[trigger] s[i]).0@
        != (#[trigger] s[j]).0@
}

/// The map that a list of distinct keys stands for.
pub open spec fn entries_map<V>(s: Seq<(String, V)>) -> Map<Seq<char>, V> {
    Map::new(|k: Seq<char>| has_key(s, k), |k: Seq<char>| s[key_index(s, k)].1)
}

impl<V> StrMap<V> {
    pub open spec fn wf(self) -> bool {
        distinct_keys(self.entries@)
    }

    pub open spec fn view(self) -> Map<Seq<char>, V> {
        entries_map(self.entries@)
    }

    pub fn new() -> (r: Self)
        ensures
            r.wf(),
            r.view() == Map::<Seq<char>, V>::empty(),
    {
        let r = StrMap { entries: Vec::new() };
        assert(r.view() =~= Map::<Seq<char>, V>::empty());
        r
    }

    /// Position of `k`, if present.
    pub fn position(&self, k: &str) -> (r: Option<usize>)
        requires
            self.wf(),
        ensures
            match r {
                Some(i) => i < self.entries@.len() && self.entries@[i as int].0@ == k@ && i
                    == key_index(self.entries@, k@),
                None => !has_key(self.entries@, k@),
            },
    {
        let kc = chars_of(k);
        let mut i: usize = 0;
        while i < self.entries.len()
            invariant
                i <= self.entries@.len(),
                kc@ == k@,
                self.wf(),
                forall|j: int| 0 <= j < i ==> (#[trigger] self.entries@[j]).0@ != k@,
            decreases self.entries@.len() - i,
        {
            let kk = chars_of(self.entries[i].0.as_str());
            if seq_eq(&kk, &kc) {
                assert(self.entries@[i as int].0@ == k@);
                assert(has_key(self.entries@, k@));
                let ghost t = key_index(self.entries@, k@);
                assert(0 <= t < self.entries@.len() && self.entries@[t].0@ == k@);
                assert(t == i as int) by {
                    if t != i as int {
                        assert(self.entries@[t].0@ != self.entries@[i as int].0@);
                    }
                }
                return Some(i);
            }
            i = i + 1;
        }
        None
    }

    pub fn contains_key(&self, k: &str) -> (r: bool)
        requires
            self.wf(),
        ensures
            r == self.view().dom().contains(k@),
    {
        self.position(k).is_some()
    }

    pub fn get(&self, k: &str) -> (r: Option<&V>)
        requires
            self.wf(),
        ensures
            match r {
                Some(v) => self.view().dom().contains(k@) && self.view()[k@] == *v,
                None => !self.view().dom().contains(k@),
            },
    {
        match self.position(k) {
            Some(i) => Some(&self.entries[i].1),
            None => None,
        }
    }

    /// Sets `k` to `v` (replacing any previous value).
    pub fn insert(&mut self, k: String, v: V)
        requires
            old(self).wf(),
        ensures
            final(self).wf(),
            final(self).view() == old(self).view().insert(k@, v),
    {
        let ghost old_entries = self.entries@;
        let ghost kv = k@;
        match self.position(k.as_str()) {
            Some(i) => {
                self.entries.set(i, (k, v));
                let ghost s = self.entries@;
                assert(s == old_entries.update(i as int, (s[i as int].0, v)));
                assert forall|a: int, b: int|
                    0 <= a < s.len() && 0 <= b < s.len() && a != b implies (#[trigger] s[a]).0@
                    != (#[trigger] s[b]).0@ by {
                    if a != i && b != i {
                        assert(old_entries[a] == s[a] && old_entries[b] == s[b]);
                    } else if a == i {
                        assert(old_entries[b] == s[b]);
                        assert(old_entries[i as int].0@ == kv);
                    } else {
                        assert(old_entries[a] == s[a]);
                        assert(old_entries[i as int].0@ == kv);
                    }
                }
                assert forall|q: Seq<char>| #[trigger] has_key(s, q) == has_key(old_entries, q) by {
                    if has_key(s, q) {
                        let t = choose|t: int| 0 <= t < s.len() && (#[trigger] s[t]).0@ == q;
                        if t != i {
                            assert(old_entries[t] == s[t]);
                        } else {
                            assert(old_entries[i as int].0@ == kv);
                        }
                    }
                    if has_key(old_entries, q) {
                        let t = choose|t: int| 0 <= t < old_entries.len() && (#[trigger] old_entries[t]).0@ == q;
                        if t != i {
                            assert(old_entries[t] == s[t]);
                        } else {
                            assert(s[i as int].0@ == kv);
                        }
                    }
                }
                let ghost m = self.view();
                let ghost om = entries_map(old_entries).insert(kv, v);
                assert forall|q: Seq<char>| m.dom().contains(q) implies #[trigger] m[q] == om[q] by {
                    let t = key_index(s, q);
                    if q == kv {
                        assert(s[i as int].0@ == kv);
                    } else {
                        let t2 = key_index(old_entries, q);
                        assert(t != i);
                        assert(old_entries[t] == s[t]);
                        assert(t == t2);
                    }
                }
                assert(m =~= om);
            },
            None => {
                self.entries.push((k, v));
                let ghost s = self.entries@;
                let ghost n = old_entries.len() as int;
                assert(s == old_entries.push((s[n].0, v)));
                assert forall|a: int, b: int|
                    0 <= a < s.len() && 0 <= b < s.len() && a != b implies (#[trigger] s[a]).0@
                    != (#[trigger] s[b]).0@ by {
                    if a != n && b != n {
                        assert(old_entries[a] == s[a] && old_entries[b] == s[b]);
                    } else if a == n {
                        assert(old_entries[b] == s[b]);
                    } else {
                        assert(old_entries[a] == s[a]);
                    }
                }
                assert forall|q: Seq<char>| #[trigger] has_key(s, q) == (has_key(old_entries, q) || q == kv) by {
                    if has_key(s, q) {
                        let t = choose|t: int| 0 <= t < s.len() && (#[trigger] s[t]).0@ == q;
                        if t != n {
                            assert(old_entries[t] == s[t]);
                        }
                    }
                    if has_key(old_entries, q) {
                        let t = choose|t: int| 0 <= t < old_entries.len() && (#[trigger] old_entries[t]).0@ == q;
                        assert(old_entries[t] == s[t]);
                    }
                    if q == kv {
                        assert(s[n].0@ == kv);
                    }
                }
                let ghost m = self.view();
                let ghost om = entries_map(old_entries).insert(kv, v);
                assert forall|q: Seq<char>| m.dom().contains(q) implies #[trigger] m[q] == om[q] by {
                    let t = key_index(s, q);
                    if q == kv {
                        assert(s[n].0@ == kv);
                    } else {
                        let t2 = key_index(old_entries, q);
                        assert(old_entries[t2] == s[t2]);
                        assert(t2 != n);
                    }
                }
                assert(m =~= om);
            },
        }
    }

    /// Removes `k`, returning its value.
    pub fn remove(&mut self, k: &str) -> (r: Option<V>)
        requires
            old(self).wf(),
        ensures
            final(self).wf(),
            final(self).view() == old(self).view().remove(k@),
            r == (if old(self).view().dom().contains(k@) { Some(old(self).view()[k@]) } else {
                None::<V>
            }),
    {
        let ghost old_entries = self.entries@;
        match self.position(k) {
            Some(i) => {
                let (_, v) = self.entries.remove(i);
                let ghost s = self.entries@;
                assert(s == old_entries.remove(i as int));
                assert forall|a: int, b: int|
                    0 <= a < s.len() && 0 <= b < s.len() && a != b implies (#[trigger] s[a]).0@
                    != (#[trigger] s[b]).0@ by {
                    let a2 = if a < i { a } else { a + 1 };
                    let b2 = if b < i { b } else { b + 1 };
                    assert(s[a] == old_entries[a2] && s[b] == old_entries[b2]);
                }
                assert forall|q: Seq<char>| #[trigger] has_key(s, q) == (has_key(old_entries, q) && q != k@) by {
                    if has_key(s, q) {
                        let t = choose|t: int| 0 <= t < s.len() && (#[trigger] s[t]).0@ == q;
                        let t2 = if t < i { t } else { t + 1 };
                        assert(s[t] == old_entries[t2]);
                        assert(t2 != i);
                    }
                    if has_key(old_entries, q) && q != k@ {
                        let t = choose|t: int| 0 <= t < old_entries.len() && (#[trigger] old_entries[t]).0@ == q;
                        assert(t != i);
                        let t2 = if t < i { t } else { t - 1 };
                        assert(s[t2] == old_entries[t]);
                    }
                }
                let ghost m = self.view();
                let ghost om = entries_map(old_entries).remove(k@);
                assert forall|q: Seq<char>| m.dom().contains(q) implies #[trigger] m[q] == om[q] by {
                    let t = key_index(s, q);
                    let t2 = if t < i { t } else { t + 1 };
                    assert(s[t] == old_entries[t2]);
                    assert(t2 == key_index(old_entries, q));
                }
                assert(m =~= om);
                Some(v)
            },
            None => {
                assert(self.view() =~= entries_map(old_entries).remove(k@));
                None
            },
        }
    }

    pub fn len(&self) -> (r: usize)
        ensures
            r == self.entries@.len(),
    {
        self.entries.len()
    }
}

// ---------------------------------------------------------------------------
// Reading values
// ---------------------------------------------------------------------------

/// The text of a string value.
pub open spec fn str_of(v: Value) -> Option<Seq<char>> {
    match v {
        Value::Str(s) => Some(s@),
        _ => None,
    }
}

/// The first member named `k` of an object's member list.
pub open spec fn member(s: Seq<(String, Value)>, k: Seq<char>) -> Option<Value>
    decreases s.len(),
{
    if s.len() == 0 {
        None
    } else if s[0].0@ == k {
        Some(s[0].1)
    } else {
        member(s.drop_first(), k)
    }
}

/// `v[k]` for an object `v`; `None` for anything else or a missing key.
pub open spec fn get_spec(v: Value, k: Seq<char>) -> Option<Value> {
    match v {
        Value::Object(m) => member(m@, k),
        _ => None,
    }
}

/// `serde_json::Value::as_i64` on a number's text: an integer in range.
pub open spec fn as_i64_spec(v: Value) -> Option<i64> {
    match v {
        Value::Number(t) => if t@.len() > 0 && t@[0] == '+' { None } else { parse_i64_spec(t@) },
        _ => None,
    }
}

impl Clone for Value {
    fn clone(&self) -> (r: Value)
        ensures
            vview(r) == vview(*self),
        decreases self,
    {
        match self {
            Value::Null => Value::Null,
            Value::Bool(b) => Value::Bool(*b),
            Value::Number(t) => Value::Number(t.clone()),
            Value::Str(t) => Value::Str(t.clone()),
            Value::Array(a) => {
                let mut out: Vec<Value> = Vec::new();
                let mut i: usize = 0;
                while i < a.len()
                    invariant
                        i <= a@.len(),
                        *self == Value::Array(*a),
                        vviews(out@) == vviews(a@.take(i as int)),
                    decreases a@.len() - i,
                {
                    assert(decreases_to!(self => a@[i as int]) ) by { assert(decreases_to!(self => self->Array_0)); assert(decreases_to!(a => a@)); };
                    let ghost before = out@;
                    let x = a[i].clone();
                    out.push(x);
                    proof {
                        lemma_vviews_push(before, x);
                        lemma_vviews_push(a@.take(i as int), a@[i as int]);
                        assert(a@.take(i + 1) =~= a@.take(i as int).push(a@[i as int]));
                    }
                    i = i + 1;
                }
                assert(a@.take(a@.len() as int) =~= a@);
                Value::Array(out)
            },
            Value::Object(m) => {
                let mut out: Vec<(String, Value)> = Vec::new();
                let mut i: usize = 0;
                while i < m.len()
                    invariant
                        i <= m@.len(),
                        *self == Value::Object(*m),
                        mviews(out@) == mviews(m@.take(i as int)),
                    decreases m@.len() - i,
                {
                    assert(decreases_to!(self => m@[i as int].1)) by { assert(decreases_to!(self => self->Object_0)); assert(decreases_to!(m => m@)); assert(decreases_to!(m@ => m@[i as int])); };
                    let ghost before = out@;
                    let pair = (m[i].0.clone(), m[i].1.clone());
                    out.push(pair);
                    proof {
                        lemma_mviews_push(before, pair);
                        lemma_mviews_push(m@.take(i as int), m@[i as int]);
                        assert(m@.take(i + 1) =~= m@.take(i as int).push(m@[i as int]));
                    }
                    i = i + 1;
                }
                assert(m@.take(m@.len() as int) =~= m@);
                Value::Object(out)
            },
        }
    }
}

impl Value {
    pub fn as_str(&self) -> (r: Option<&String>)
        ensures
            match r {
                Some(s) => str_of(*self) == Some(s@),
                None => str_of(*self).is_none(),
            },
    {
        match self {
            Value::Str(s) => Some(s),
            _ => None,
        }
    }

    pub fn is_null(&self) -> (r: bool)
        ensures
            r == (*self is Null),
    {
        match self {
            Value::Null => true,
            _ => false,
        }
    }

    /// Member `k` of an object.
    pub fn get(&self, k: &str) -> (r: Option<&Value>)
        ensures
            match r {
                Some(x) => get_spec(*self, k@) == Some(*x),
                None => get_spec(*self, k@).is_none(),
            },
    {
        match self {
            Value::Object(m) => {
                let kc = chars_of(k);
                let mut i: usize = 0;
                assert(m@.skip(0) =~= m@);
                while i < m.len()
                    invariant
                        i <= m@.len(),
                        kc@ == k@,
                        member(m@, k@) == member(m@.skip(i as int), k@),
                        *self == Value::Object(*m),
                    decreases m@.len() - i,
                {
                    let ghost rest = m@.skip(i as int);
                    assert(rest.drop_first() =~= m@.skip(i + 1));
                    let kk = chars_of(m[i].0.as_str());
                    if seq_eq(&kk, &kc) {
                        assert(rest[0] == m@[i as int]);
                        return Some(&m[i].1);
                    }
                    i = i + 1;
                }
                None
            },
            _ => None,
        }
    }

    /// The integer held by a number, if it is one (`as_i64`).
    pub fn as_i64(&self) -> (r: Option<i64>)
        ensures
            r == as_i64_spec(*self),
    {
        match self {
            Value::Number(t) => {
                let cs = chars_of(t.as_str());
                if cs.len() > 0 && cs[0] == '+' {
                    None
                } else {
                    parse_i64(t.as_str())
                }
            },
            _ => None,
        }
    }

    /// The elements of an array.
    pub fn as_array(&self) -> (r: Option<&Vec<Value>>)
        ensures
            match r {
                Some(a) => *self == Value::Array(*a),
                None => !(*self is Array),
            },
    {
        match self {
            Value::Array(a) => Some(a),
            _ => None,
        }
    }
}

/// `v[k]` as a string, when it is one.
pub open spec fn get_str_spec(v: Value, k: Seq<char>) -> Option<Seq<char>> {
    match get_spec(v, k) {
        Some(x) => str_of(x),
        None => None,
    }
}

/// `v[k]` as a string.
pub fn get_str(v: &Value, k: &str) -> (r: Option<String>)
    ensures
        match r {
            Some(s) => get_str_spec(*v, k@) == Some(s@),
            None => get_str_spec(*v, k@).is_none(),
        },
{
    match v.get(k) {
        Some(x) => match x.as_str() {
            Some(s) => Some(s.clone()),
            None => None,
        },
        None => None,
    }
}

/// A string value.
pub fn str_value(s: &str) -> (r: Value)
    ensures
        str_of(r) == Some(s@),
        vview(r) == ValueV::Str(s@),
{
    Value::Str(owned(s))
}

/// Whether `v` is an array of strings with the given texts.
pub open spec fn is_str_array(v: Value, texts: Seq<Seq<char>>) -> bool {
    match v {
        Value::Array(a) => a@.len() == texts.len() && forall|i: int|
            0 <= i < a@.len() ==> str_of(#[trigger] a@[i]) == Some(texts[i]),
        _ => false,
    }
}

/// An array of string values.
pub fn str_array(items: &[String]) -> (r: Value)
    ensures
        is_str_array(r, views(items@)),
        vview(r) == ValueV::Array(str_views(views(items@))),
{
    let mut a: Vec<Value> = Vec::new();
    let mut i: usize = 0;
    while i < items.len()
        invariant
            i <= items@.len(),
            a@.len() == i,
            forall|j: int| 0 <= j < i ==> str_of(#[trigger] a@[j]) == Some(items@[j]@),
            vviews(a@) == str_views(views(items@.take(i as int))),
        decreases items@.len() - i,
    {
        let ghost before = a@;
        let x = Value::Str(items[i].clone());
        a.push(x);
        proof {
            lemma_vviews_push(before, x);
            assert(views(items@.take(i + 1)) =~= views(items@.take(i as int)).push(items@[i as int]@));
            assert(str_views(views(items@.take(i + 1))) =~= str_views(views(items@.take(i as int))).push(ValueV::Str(items@[i as int]@)));
        }
        i = i + 1;
    }
    assert(items@.take(items@.len() as int) =~= items@);
    Value::Array(a)
}

/// String values of the given texts.
pub open spec fn str_views(texts: Seq<Seq<char>>) -> Seq<ValueV> {
    texts.map_values(|t: Seq<char>| ValueV::Str(t))
}

pub proof fn lemma_vviews_push(s: Seq<Value>, x: Value)
    ensures
        vviews(s.push(x)) == vviews(s).push(vview(x)),
{
    assert(s.push(x).subrange(0, s.len() as int) =~= s);
}

pub proof fn lemma_mviews_push(s: Seq<(String, Value)>, x: (String, Value))
    ensures
        mviews(s.push(x)) == mviews(s).push((x.0@, vview(x.1))),
{
    assert(s.push(x).subrange(0, s.len() as int) =~= s);
}

pub proof fn lemma_vviews_len(s: Seq<Value>)
    ensures
        vviews(s).len() == s.len(),
    decreases s.len(),
{
    if s.len() > 0 {
        lemma_vviews_len(s.subrange(0, s.len() - 1));
    }
}

} // verus!

verus! {

// ---------------------------------------------------------------------------
// JSON text (serde_json)
// ---------------------------------------------------------------------------

/// What `serde_json::to_string` writes for a value: compact JSON, object
/// members in the order of their names.
pub uninterp spec fn json_of(v: ValueV) -> Seq<char>;

/// `v` as a `serde_json::Value`, one variant for one: a number from its
/// text (`serde_json::from_str`), members by name. No contract: only
/// `json_text_of` hands it on.
#[verifier::external_body]
fn json_value(v: &Value) -> JsonValue {
    match v {
        Value::Null => serde_json::Value::Null,
        Value::Bool(b) => serde_json::Value::Bool(*b),
        Value::Number(t) => serde_json::from_str::<serde_json::Number>(t).map(serde_json::Value::Number).unwrap_or(serde_json::Value::Null),
        Value::Str(t) => serde_json::Value::String(t.clone()),
        Value::Array(a) => serde_json::Value::Array(a.iter().map(json_value).collect()),
        Value::Object(m) => serde_json::Value::Object(m.iter().map(|(k, x)| (k.clone(), json_value(x))).collect()),
    }
}

/// `serde_json::to_string` on the value: its JSON text, named as a
/// function of what the value stands for.
#[verifier::external_body]
pub(crate) fn json_text_of(v: &Value) -> (r: String)
    ensures
        r@ == json_of(vview(*v)),
{
    serde_json::to_string(&json_value(v)).unwrap_or_default()
}

/// What `serde_json::to_string_pretty` writes for a value: indented JSON,
/// object members in the order of their names.
pub uninterp spec fn json_pretty_of(v: ValueV) -> Seq<char>;

/// `serde_json::to_string_pretty` on the value: its indented JSON text,
/// named as a function of what the value stands for.
#[verifier::external_body]
pub(crate) fn json_pretty_text_of(v: &Value) -> (r: String)
    ensures
        r@ == json_pretty_of(vview(*v)),
{
    serde_json::to_string_pretty(&json_value(v)).unwrap_or_default()
}

/// The JSON text of a value, as serde_json writes it.
pub fn to_json(v: &Value) -> (r: String)
    ensures
        r@ == json_of(vview(*v)),
{
    json_text_of(v)
}

pub proof fn lemma_mviews_len(s: Seq<(String, Value)>)
    ensures
        mviews(s).len() == s.len(),
    decreases s.len(),
{
    if s.len() > 0 {
        lemma_mviews_len(s.subrange(0, s.len() - 1));
    }
}

} // verus!
