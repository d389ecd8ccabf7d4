//! A JSON value model in the shape of the ComfyUI API prompt format.
//!
//! Objects keep their keys in insertion order, each key at most once,
//! so that a prompt serialises back exactly as it was read.

use vstd::prelude::*;

use crate::keyed::{has_key, key_pos, keyed_insert, keyed_remove, keys_unique, lemma_key_pos, lemma_keyed_insert, lemma_keyed_remove, lookup};
use crate::strings::str_eq;
use vstd::arithmetic::power2::{pow2, lemma_pow2_unfold, lemma_pow2_strictly_increases, lemma2_to64};
use vstd::arithmetic::div_mod::lemma_div_denominator;

verus! {

/// A JSON number. A floating-point number is held by its IEEE-754 bit
/// pattern, which stands for it exactly.
#[derive(Clone, Copy, Debug, PartialEq, Eq)]
pub enum JsonNumber {
    PosInt(u64),
    NegInt(i64),
    Float(u64),
}

/// `f as u64` for the `f64` with bit pattern `bits`: the value truncated
/// toward zero, saturating at `0` and `u64::MAX`, with NaN giving `0`.
pub open spec fn f64_bits_to_u64(bits: u64) -> int {
    let sign = bits / 0x8000_0000_0000_0000u64;
    let exp = (bits / 0x10_0000_0000_0000u64) % 0x800;
    let mant = bits % 0x10_0000_0000_0000u64;
    if exp == 0x7ff {
        if mant == 0 && sign == 0 { 0xffff_ffff_ffff_ffff } else { 0 }
    } else if sign == 1 || exp < 1023 {
        0
    } else if exp >= 1023 + 64 {
        0xffff_ffff_ffff_ffff
    } else if exp >= 1075 {
        (mant + 0x10_0000_0000_0000) * pow2((exp - 1075) as nat)
    } else {
        (mant + 0x10_0000_0000_0000) / pow2((1075 - exp) as nat) as int
    }
}

/// Whether the `f64` with bit pattern `bits` is a whole number that is not
/// below zero (`-0.0` is zero); NaN and the infinities are not.
pub open spec fn f64_bits_is_index(bits: u64) -> bool {
    let sign = bits / 0x8000_0000_0000_0000u64;
    let exp = (bits / 0x10_0000_0000_0000u64) % 0x800;
    let mant = bits % 0x10_0000_0000_0000u64;
    if exp == 0x7ff {
        false
    } else if exp == 0 {
        mant == 0
    } else if sign == 1 || exp < 1023 {
        false
    } else if exp >= 1075 {
        true
    } else {
        (mant + 0x10_0000_0000_0000) % (pow2((1075 - exp) as nat) as int) == 0
    }
}

/// The number as an index when it is a whole number not below zero: an
/// integer as it is, a float converted to `u64` (saturating at `u64::MAX`);
/// no index otherwise.
pub open spec fn number_index(n: JsonNumber) -> Option<int> {
    match n {
        JsonNumber::PosInt(v) => Some(v as int),
        JsonNumber::NegInt(v) => if v < 0 { None } else { Some(v as int) },
        JsonNumber::Float(b) => if f64_bits_is_index(b) { Some(f64_bits_to_u64(b)) } else { None },
    }
}

impl JsonNumber {
    /// The number as `u64` if it is a non-negative integer.
    pub fn as_u64(&self) -> (r: Option<u64>)
        ensures
            r == (match *self {
                JsonNumber::PosInt(v) => Some(v),
                _ => None,
            }),
    {
        match self {
            JsonNumber::PosInt(v) => Some(*v),
            _ => None,
        }
    }

    /// The number as an index: a whole number not below zero, as `u64`.
    pub fn as_index(&self) -> (r: Option<u64>)
        ensures
            match r {
                Some(k) => number_index(*self) == Some(k as int),
                None => number_index(*self) is None,
            },
    {
        match self {
            JsonNumber::PosInt(v) => Some(*v),
            JsonNumber::NegInt(v) => if *v < 0 { None } else { Some(*v as u64) },
            JsonNumber::Float(b) => if f64_bits_is_index_exec(*b) { Some(f64_bits_to_u64_exec(*b)) } else { None },
        }
    }
}

fn f64_bits_is_index_exec(bits: u64) -> (r: bool)
    ensures
        r == f64_bits_is_index(bits),
{
    let sign = bits / 0x8000_0000_0000_0000u64;
    let exp = (bits / 0x10_0000_0000_0000u64) % 0x800;
    let mant = bits % 0x10_0000_0000_0000u64;
    if exp == 0x7ff {
        false
    } else if exp == 0 {
        mant == 0
    } else if sign == 1 || exp < 1023 {
        false
    } else if exp >= 1075 {
        true
    } else {
        let m = mant + 0x10_0000_0000_0000u64;
        let d = 1075 - exp;
        let mut p: u64 = 1;
        let mut j: u64 = 0;
        proof {
            lemma2_to64();
        }
        while j < d
            invariant
                d <= 52,
                j <= d,
                p == pow2(j as nat),
                0 < p <= 0x10_0000_0000_0000u64,
            decreases d - j,
        {
            proof {
                lemma_pow2_unfold((j + 1) as nat);
                lemma2_to64();
                lemma_pow2_strictly_increases(j as nat, 52);
                vstd::arithmetic::power2::lemma2_to64_rest();
                assert(p < 0x10_0000_0000_0000u64);
                if j + 1 < 52 {
                    lemma_pow2_strictly_increases((j + 1) as nat, 52);
                }
            }
            p = p * 2;
            j = j + 1;
        }
        m % p == 0
    }
}

fn f64_bits_to_u64_exec(bits: u64) -> (r: u64)
    ensures
        r == f64_bits_to_u64(bits),
{
    let sign = bits / 0x8000_0000_0000_0000u64;
    let exp = (bits / 0x10_0000_0000_0000u64) % 0x800;
    let mant = bits % 0x10_0000_0000_0000u64;
    if exp == 0x7ff {
        if mant == 0 && sign == 0 { 0xffff_ffff_ffff_ffff } else { 0 }
    } else if sign == 1 || exp < 1023 {
        0
    } else if exp >= 1023 + 64 {
        0xffff_ffff_ffff_ffff
    } else if exp >= 1075 {
        let m = mant + 0x10_0000_0000_0000u64;
        let k = exp - 1075;
        let mut r = m;
        let mut j: u64 = 0;
        proof {
            lemma2_to64();
        }
        while j < k
            invariant
                k <= 11,
                j <= k,
                m < 0x20_0000_0000_0000u64,
                r == m * pow2(j as nat),
            decreases k - j,
        {
            proof {
                lemma_pow2_unfold((j + 1) as nat);
                lemma2_to64();
                if j < 10 {
                    lemma_pow2_strictly_increases(j as nat, 10);
                }
                assert(pow2(j as nat) <= 1024);
                assert(m * pow2(j as nat) <= (0x20_0000_0000_0000u64 - 1) * 1024) by (nonlinear_arith)
                    requires
                        m < 0x20_0000_0000_0000u64,
                        pow2(j as nat) <= 1024,
                ;
                assert(m * pow2((j + 1) as nat) == (m * pow2(j as nat)) * 2) by (nonlinear_arith)
                    requires
                        pow2((j + 1) as nat) == 2 * pow2(j as nat),
                ;
            }
            r = r * 2;
            j = j + 1;
        }
        r
    } else {
        let m = mant + 0x10_0000_0000_0000u64;
        let d = 1075 - exp;
        let mut r = m;
        let mut j: u64 = 0;
        proof {
            lemma2_to64();
            assert(m as int / pow2(0) as int == m);
        }
        while j < d
            invariant
                d <= 52,
                j <= d,
                r == m as int / pow2(j as nat) as int,
            decreases d - j,
        {
            proof {
                lemma_pow2_unfold((j + 1) as nat);
                vstd::arithmetic::power2::lemma_pow2_pos(j as nat);
                lemma_div_denominator(m as int, pow2(j as nat) as int, 2);
                assert(pow2(j as nat) * 2 == pow2((j + 1) as nat));
            }
            r = r / 2;
            j = j + 1;
        }
        r
    }
}

/// A JSON value.
#[derive(Debug, PartialEq)]
pub enum JsonValue {
    Null,
    Bool(bool),
    Number(JsonNumber),
    String(String),
    Array(Vec<JsonValue>),
    Object(JsonObject),
}

/// A JSON object: key/value entries in insertion order, keys distinct.
/// The entries sit in a `Vec` because a map of this crate's values would
/// make `JsonValue` recursive through `IndexMap`, whose value parameter
/// Verus declares as one that may not hold the type being defined.
#[derive(Debug, PartialEq)]
pub struct JsonObject {
    entries: Vec<(String, JsonValue)>,
}

/// The mathematical content of a JSON value.
pub enum JsonView {
    Null,
    Bool(bool),
    Number(JsonNumber),
    Str(Seq<char>),
    Array(Seq<JsonView>),
    Object(Seq<(Seq<char>, JsonView)>),
}

/// The mathematical content of a JSON value.
pub open spec fn json_view(v: JsonValue) -> JsonView
    decreases v, 0nat,
{
    match v {
        JsonValue::Null => JsonView::Null,
        JsonValue::Bool(b) => JsonView::Bool(b),
        JsonValue::Number(n) => JsonView::Number(n),
        JsonValue::String(s) => JsonView::Str(s@),
        JsonValue::Array(a) => JsonView::Array(array_views(a, a@.len())),
        JsonValue::Object(o) => JsonView::Object(object_view(o)),
    }
}

/// Views of the first `n` elements of an array.
pub open spec fn array_views(a: Vec<JsonValue>, n: nat) -> Seq<JsonView>
    decreases a, n,
{
    if n == 0 || n > a@.len() {
        Seq::empty()
    } else {
        array_views(a, (n - 1) as nat).push(json_view(a[n - 1]))
    }
}

/// The entries of an object, keys and values by their views.
pub closed spec fn object_view(o: JsonObject) -> Seq<(Seq<char>, JsonView)>
    decreases o, 1nat,
{
    entry_views(o.entries, o.entries@.len())
}

/// Views of the first `n` entries of an object.
pub closed spec fn entry_views(e: Vec<(String, JsonValue)>, n: nat) -> Seq<(Seq<char>, JsonView)>
    decreases e, n,
{
    if n == 0 || n > e@.len() {
        Seq::empty()
    } else {
        entry_views(e, (n - 1) as nat).push((e[n - 1].0@, json_view(e[n - 1].1)))
    }
}

impl View for JsonObject {
    type V = Seq<(Seq<char>, JsonView)>;

    open spec fn view(&self) -> Seq<(Seq<char>, JsonView)> {
        object_view(*self)
    }
}

impl View for JsonValue {
    type V = JsonView;

    open spec fn view(&self) -> JsonView {
        json_view(*self)
    }
}


/// The view of an optional value.
pub open spec fn opt_view(o: Option<JsonValue>) -> Option<JsonView> {
    match o {
        Some(v) => Some(v@),
        None => None,
    }
}

/// The view of an optional borrowed value.
pub open spec fn opt_ref_view(o: Option<&JsonValue>) -> Option<JsonView> {
    match o {
        Some(v) => Some(v@),
        None => None,
    }
}

proof fn lemma_entry_views(e: Vec<(String, JsonValue)>, n: nat)
    requires
        n <= e@.len(),
    ensures
        entry_views(e, n).len() == n,
        forall|i: int| 0 <= i < n ==> #[trigger] entry_views(e, n)[i] == (e@[i].0@, json_view(e@[i].1)),
    decreases n,
{
    if n > 0 {
        lemma_entry_views(e, (n - 1) as nat);
    }
}

proof fn lemma_array_views(a: Vec<JsonValue>, n: nat)
    requires
        n <= a@.len(),
    ensures
        array_views(a, n).len() == n,
        forall|i: int| 0 <= i < n ==> #[trigger] array_views(a, n)[i] == json_view(a@[i]),
    decreases n,
{
    if n > 0 {
        lemma_array_views(a, (n - 1) as nat);
    }
}

/// The view of an array lists the views of its elements.
pub proof fn lemma_array_view(a: Vec<JsonValue>)
    ensures
        json_view(JsonValue::Array(a)) == JsonView::Array(a@.map_values(|v: JsonValue| v@)),
{
    lemma_array_views(a, a@.len());
    assert(array_views(a, a@.len()) =~= a@.map_values(|v: JsonValue| v@));
}

impl Clone for JsonValue {
    /// A copy equal to the value in every part.
    fn clone(&self) -> (r: JsonValue)
        ensures
            r@ == self@,
    {
        self.deep_copy()
    }
}

impl Clone for JsonObject {
    /// A copy equal to the object in every part.
    fn clone(&self) -> (r: JsonObject)
        ensures
            r@ == self@,
    {
        self.deep_copy()
    }
}

impl JsonValue {
    /// A copy of the value, equal to it in every part.
    pub fn deep_copy(&self) -> (r: JsonValue)
        ensures
            r@ == self@,
        decreases self,
    {
        match self {
            JsonValue::Null => JsonValue::Null,
            JsonValue::Bool(b) => JsonValue::Bool(*b),
            JsonValue::Number(n) => JsonValue::Number(*n),
            JsonValue::String(s) => JsonValue::String(s.clone()),
            JsonValue::Array(a) => {
                let mut out: Vec<JsonValue> = Vec::new();
                let mut i: usize = 0;
                while i < a.len()
                    invariant
                        *self == JsonValue::Array(*a),
                        i <= a@.len(),
                        out@.len() == i,
                        forall|j: int| 0 <= j < i ==> #[trigger] out@[j]@ == a@[j]@,
                    decreases a@.len() - i,
                {
                    proof {
                        assert(decreases_to!(*a => a[i as int]));
                        assert(decreases_to!(*self => (*self)->Array_0));
                        assert(decreases_to!(*self => a[i as int]));
                    }
                    let c = a[i].deep_copy();
                    out.push(c);
                    i += 1;
                }
                proof {
                    lemma_array_view(*a);
                    lemma_array_view(out);
                    assert(out@.map_values(|v: JsonValue| v@) =~= a@.map_values(|v: JsonValue| v@));
                }
                JsonValue::Array(out)
            },
            JsonValue::Object(o) => JsonValue::Object(o.deep_copy()),
        }
    }
}

impl JsonObject {
    /// A copy of the object, equal to it in every part.
    pub fn deep_copy(&self) -> (r: JsonObject)
        ensures
            r@ == self@,
        decreases self,
    {
        proof {
            use_type_invariant(self);
            self.lemma_view();
        }
        let mut out: Vec<(String, JsonValue)> = Vec::new();
        let mut i: usize = 0;
        while i < self.entries.len()
            invariant
                self.keys_distinct(),
                i <= self.entries@.len(),
                out@.len() == i,
                forall|j: int| 0 <= j < i ==> #[trigger] out@[j].0@ == self.entries@[j].0@ && out@[j].1@ == self.entries@[j].1@,
            decreases self.entries@.len() - i,
        {
            let e = &self.entries[i];
            let c = e.1.deep_copy();
            out.push((e.0.clone(), c));
            i += 1;
        }
        assert forall|a: int, b: int|
            0 <= a < out@.len() && 0 <= b < out@.len() && a != b implies #[trigger] out@[a].0@ != #[trigger] out@[b].0@ by {
            assert(self.entries@[a].0@ != self.entries@[b].0@);
        }
        let r = JsonObject { entries: out };
        proof {
            r.lemma_view();
            assert(r@ =~= self@);
        }
        r
    }

    #[verifier::type_invariant]
    spec fn keys_distinct(self) -> bool {
        forall|i: int, j: int|
            0 <= i < self.entries@.len() && 0 <= j < self.entries@.len() && i != j
                ==> #[trigger] self.entries@[i].0@ != #[trigger] self.entries@[j].0@
    }

    proof fn lemma_view(self)
        ensures
            self@.len() == self.entries@.len(),
            forall|i: int| 0 <= i < self@.len() ==> #[trigger] self@[i] == (self.entries@[i].0@, self.entries@[i].1@),
    {
        lemma_entry_views(self.entries, self.entries@.len());
    }

    proof fn lemma_keys_unique(self)
        requires
            self.keys_distinct(),
        ensures
            keys_unique(self@),
    {
        self.lemma_view();
        assert forall|i: int, j: int|
            0 <= i < self@.len() && 0 <= j < self@.len() && i != j implies #[trigger] self@[i].0 != #[trigger] self@[j].0 by {
            assert(self.entries@[i].0@ != self.entries@[j].0@);
        }
    }

    /// An empty object.
    pub fn new() -> (r: JsonObject)
        ensures
            r@ == Seq::<(Seq<char>, JsonView)>::empty(),
    {
        let r = JsonObject { entries: Vec::new() };
        proof {
            r.lemma_view();
        }
        assert(r@ =~= Seq::<(Seq<char>, JsonView)>::empty());
        r
    }

    /// The number of entries. (The keys of an object are distinct.)
    pub fn len(&self) -> (r: usize)
        ensures
            r == self@.len(),
            keys_unique(self@),
    {
        proof {
            use_type_invariant(self);
            self.lemma_view();
            self.lemma_keys_unique();
        }
        self.entries.len()
    }

    /// Whether the object has no entries.
    pub fn is_empty(&self) -> (r: bool)
        ensures
            r == (self@.len() == 0),
    {
        self.len() == 0
    }

    /// The position of the entry with key `key`.
    pub fn find(&self, key: &str) -> (r: Option<usize>)
        ensures
            match r {
                Some(i) => i < self@.len() && i == key_pos(self@, key@) && has_key(self@, key@),
                None => !has_key(self@, key@),
            },
    {
        proof {
            use_type_invariant(self);
            self.lemma_view();
            self.lemma_keys_unique();
        }
        let mut i: usize = 0;
        while i < self.entries.len()
            invariant
                i <= self.entries@.len(),
                self@.len() == self.entries@.len(),
                forall|j: int| 0 <= j < self@.len() ==> #[trigger] self@[j] == (self.entries@[j].0@, self.entries@[j].1@),
                forall|j: int| 0 <= j < i ==> self@[j].0 != key@,
                keys_unique(self@),
            decreases self.entries@.len() - i,
        {
            if str_eq(self.entries[i].0.as_str(), key) {
                proof {
                    lemma_key_pos(self@, i as int);
                }
                return Some(i);
            }
            i += 1;
        }
        None
    }

    /// Whether some entry has key `key`.
    pub fn contains_key(&self, key: &str) -> (r: bool)
        ensures
            r == has_key(self@, key@),
    {
        self.find(key).is_some()
    }

    /// The value under `key`.
    pub fn get(&self, key: &str) -> (r: Option<&JsonValue>)
        ensures
            opt_ref_view(r) == lookup(self@, key@),
    {
        proof {
            self.lemma_view();
        }
        match self.find(key) {
            Some(i) => Some(&self.entries[i].1),
            None => None,
        }
    }

    /// The entry at position `i`, if there is one.
    pub fn get_index(&self, i: usize) -> (r: Option<(&String, &JsonValue)>)
        ensures
            i < self@.len() ==> (r matches Some(e) && e.0@ == self@[i as int].0 && e.1@ == self@[i as int].1),
            i >= self@.len() ==> r is None,
    {
        proof {
            self.lemma_view();
        }
        if i < self.entries.len() {
            let e = &self.entries[i];
            Some((&e.0, &e.1))
        } else {
            None
        }
    }

    /// Sets `key` to `value`; an existing key keeps its place. Returns the
    /// value that was there before.
    pub fn insert(&mut self, key: String, value: JsonValue) -> (r: Option<JsonValue>)
        ensures
            final(self)@ == keyed_insert(old(self)@, key@, value@),
            keys_unique(final(self)@),
            opt_view(r) == lookup(old(self)@, key@),
            lookup(final(self)@, key@) == Some(value@),
            forall|k: Seq<char>| k != key@ ==> lookup(final(self)@, k) == lookup(old(self)@, k),
    {
        proof {
            use_type_invariant(&*self);
            self.lemma_view();
            self.lemma_keys_unique();
            lemma_keyed_insert(self@, key@, value@);
        }
        let ghost old_view = self@;
        let ghost kv = key@;
        let ghost vv = value@;
        match self.find(key.as_str()) {
            Some(i) => {
                proof {
                    use_type_invariant(&*self);
                }
                let mut entries = Vec::new();
                std::mem::swap(&mut entries, &mut self.entries);
                let ghost old_entries = entries@;
                let (k, old_value) = entries.remove(i);
                entries.insert(i, (k, value));
                assert forall|j: int| 0 <= j < entries@.len() implies #[trigger] entries@[j].0 == old_entries[j].0 by {
                    if j == i {
                    } else if j < i {
                    } else {
                    }
                }
                assert forall|a: int, b: int|
                    0 <= a < entries@.len() && 0 <= b < entries@.len() && a != b implies #[trigger] entries@[a].0@ != #[trigger] entries@[b].0@ by {
                    assert(entries@[a].0 == old_entries[a].0);
                    assert(entries@[b].0 == old_entries[b].0);
                    assert(old_entries[a].0@ != old_entries[b].0@);
                }
                self.entries = entries;
                proof {
                    self.lemma_view();
                    assert(self@ =~= old_view.update(i as int, (kv, vv)));
                }
                Some(old_value)
            },
            None => {
                proof {
                    use_type_invariant(&*self);
                }
                let mut entries = Vec::new();
                std::mem::swap(&mut entries, &mut self.entries);
                let ghost old_entries = entries@;
                entries.push((key, value));
                assert forall|a: int, b: int|
                    0 <= a < entries@.len() && 0 <= b < entries@.len() && a != b implies #[trigger] entries@[a].0@ != #[trigger] entries@[b].0@ by {
                    if a < old_entries.len() && b < old_entries.len() {
                        assert(old_entries[a].0@ != old_entries[b].0@);
                    } else if a < old_entries.len() {
                        assert(old_view[a].0 != kv);
                    } else {
                        assert(old_view[b].0 != kv);
                    }
                }
                self.entries = entries;
                proof {
                    self.lemma_view();
                    assert(self@ =~= old_view.push((kv, vv)));
                }
                None
            },
        }
    }

    /// Removes the entry with key `key`, shifting the later entries down.
    /// Returns its value.
    pub fn shift_remove(&mut self, key: &str) -> (r: Option<JsonValue>)
        ensures
            final(self)@ == keyed_remove(old(self)@, key@),
            opt_view(r) == lookup(old(self)@, key@),
            !has_key(final(self)@, key@),
            forall|k: Seq<char>| k != key@ ==> lookup(final(self)@, k) == lookup(old(self)@, k),
    {
        proof {
            use_type_invariant(&*self);
            self.lemma_view();
            self.lemma_keys_unique();
            lemma_keyed_remove(self@, key@);
        }
        let ghost old_view = self@;
        match self.find(key) {
            Some(i) => {
                proof {
                    use_type_invariant(&*self);
                }
                let mut entries = Vec::new();
                std::mem::swap(&mut entries, &mut self.entries);
                let (_k, old_value) = entries.remove(i);
                self.entries = entries;
                proof {
                    self.lemma_view();
                    assert(self@ =~= old_view.remove(i as int));
                }
                Some(old_value)
            },
            None => None,
        }
    }
}

} // verus!
