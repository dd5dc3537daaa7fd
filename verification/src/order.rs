//! The total order on values: first by variant, then by contents.
//!
//! Variants rank `Int < Bool < String < Array < Mapping < Null`. Within a
//! variant, integers and booleans compare by value, an absent text or array
//! sorts before every present one, texts compare by their UTF-8 bytes, and
//! arrays and mappings compare item by item, a proper prefix sorting first.

use crate::value::{lemma_view_items, lemma_view_pairs, view_items, view_pairs, SpecValue, Value};
use vstd::prelude::*;
use vstd::string::StringSliceAdditionalSpecFns;
use vstd::utf8::*;

verus! {

/// The outcome of comparing a left value with a right one.
#[derive(Debug, Clone, Copy, PartialEq, Eq, Structural)]
pub enum Order {
    Less,
    Equal,
    Greater,
}

impl Order {
    /// The outcome with the two sides exchanged.
    pub open spec fn flip(self) -> Order {
        match self {
            Order::Less => Order::Greater,
            Order::Equal => Order::Equal,
            Order::Greater => Order::Less,
        }
    }
}

/// The position of a value's variant in the order of variants.
pub open spec fn rank(v: SpecValue) -> int {
    match v {
        SpecValue::Int(_) => 0,
        SpecValue::Bool(_) => 1,
        SpecValue::Text(_) => 2,
        SpecValue::Array(_) => 3,
        SpecValue::Mapping(_) => 4,
        SpecValue::Null => 5,
    }
}

/// The order of two integers.
pub open spec fn order_ints(a: int, b: int) -> Order {
    if a < b {
        Order::Less
    } else if a == b {
        Order::Equal
    } else {
        Order::Greater
    }
}

/// The order of two booleans: `false` before `true`.
pub open spec fn order_bools(a: bool, b: bool) -> Order {
    order_ints(
        if a {
            1
        } else {
            0
        },
        if b {
            1
        } else {
            0
        },
    )
}

/// The lexicographic order of `a` and `b` from index `i` on.
pub open spec fn order_bytes(a: Seq<u8>, b: Seq<u8>, i: int) -> Order
    decreases a.len() - i,
{
    if i < 0 || i >= a.len() {
        if i < 0 || i >= b.len() {
            Order::Equal
        } else {
            Order::Less
        }
    } else if i >= b.len() {
        Order::Greater
    } else if a[i] != b[i] {
        order_ints(a[i] as int, b[i] as int)
    } else {
        order_bytes(a, b, i + 1)
    }
}

/// The order of two optional texts.
pub open spec fn order_texts(a: Option<Seq<char>>, b: Option<Seq<char>>) -> Order {
    match (a, b) {
        (None, None) => Order::Equal,
        (None, Some(_)) => Order::Less,
        (Some(_), None) => Order::Greater,
        (Some(x), Some(y)) => order_bytes(encode_utf8(x), encode_utf8(y), 0),
    }
}

/// The order of two values.
pub open spec fn order_values(a: SpecValue, b: SpecValue) -> Order
    decreases a, 0nat,
{
    if rank(a) != rank(b) {
        order_ints(rank(a), rank(b))
    } else {
        match (a, b) {
            (SpecValue::Int(x), SpecValue::Int(y)) => order_ints(x as int, y as int),
            (SpecValue::Bool(x), SpecValue::Bool(y)) => order_bools(x, y),
            (SpecValue::Text(x), SpecValue::Text(y)) => order_texts(x, y),
            (SpecValue::Array(None), SpecValue::Array(None)) => Order::Equal,
            (SpecValue::Array(None), SpecValue::Array(Some(_))) => Order::Less,
            (SpecValue::Array(Some(_)), SpecValue::Array(None)) => Order::Greater,
            (SpecValue::Array(Some(x)), SpecValue::Array(Some(y))) => order_items(x, y, 0),
            (SpecValue::Mapping(x), SpecValue::Mapping(y)) => order_pairs(x, y, 0),
            _ => Order::Equal,
        }
    }
}

/// The lexicographic order of two sequences of values from index `i` on.
pub open spec fn order_items(a: Seq<SpecValue>, b: Seq<SpecValue>, i: int) -> Order
    decreases a, a.len() - i,
{
    if i < 0 || i >= a.len() {
        if i < 0 || i >= b.len() {
            Order::Equal
        } else {
            Order::Less
        }
    } else if i >= b.len() {
        Order::Greater
    } else {
        match order_values(a[i], b[i]) {
            Order::Equal => order_items(a, b, i + 1),
            other => other,
        }
    }
}

/// The lexicographic order of two sequences of pairs from index `i` on, each
/// pair compared by its key and then by its value.
pub open spec fn order_pairs(
    a: Seq<(SpecValue, SpecValue)>,
    b: Seq<(SpecValue, SpecValue)>,
    i: int,
) -> Order
    decreases a, a.len() - i,
{
    if i < 0 || i >= a.len() {
        if i < 0 || i >= b.len() {
            Order::Equal
        } else {
            Order::Less
        }
    } else if i >= b.len() {
        Order::Greater
    } else {
        match order_values(a[i].0, b[i].0) {
            Order::Equal => match order_values(a[i].1, b[i].1) {
                Order::Equal => order_pairs(a, b, i + 1),
                other => other,
            },
            other => other,
        }
    }
}

/// `a` sorts before `b`: a strict total order on values (see
/// `lemma_before_irreflexive`, `lemma_before_transitive` and
/// `lemma_before_total`).
#[verifier::opaque]
pub open spec fn sorts_before(a: SpecValue, b: SpecValue) -> bool {
    order_values(a, b) == Order::Less
}

/// The keys of `pairs` ascend strictly, so none occurs twice.
pub open spec fn keys_ascend<T>(pairs: Seq<(SpecValue, T)>) -> bool {
    forall|i: int, j: int|
        0 <= i < j < pairs.len() ==> sorts_before((#[trigger] pairs[i]).0, (#[trigger] pairs[j]).0)
}

impl SpecValue {
    /// Every mapping in the value, at any depth, has strictly ascending keys.
    pub open spec fn wf(self) -> bool
        decreases self,
    {
        match self {
            SpecValue::Array(Some(items)) => forall|i: int|
                0 <= i < items.len() ==> (#[trigger] items[i]).wf(),
            SpecValue::Mapping(pairs) => {
                &&& keys_ascend(pairs)
                &&& forall|i: int|
                    0 <= i < pairs.len() ==> (#[trigger] pairs[i]).0.wf() && pairs[i].1.wf()
            },
            _ => true,
        }
    }
}

/// Comparing a byte sequence with itself gives `Equal`.
pub proof fn lemma_bytes_reflexive(a: Seq<u8>, i: int)
    ensures
        order_bytes(a, a, i) == Order::Equal,
    decreases a.len() - i,
{
    if 0 <= i < a.len() {
        lemma_bytes_reflexive(a, i + 1);
    }
}

/// Byte sequences that compare `Equal` from `i` on agree from `i` on.
pub proof fn lemma_bytes_equal(a: Seq<u8>, b: Seq<u8>, i: int)
    requires
        0 <= i <= b.len(),
        order_bytes(a, b, i) == Order::Equal,
    ensures
        i <= a.len() ==> a.len() == b.len(),
        forall|j: int| i <= j < a.len() ==> a[j] == b[j],
    decreases a.len() - i,
{
    if i < a.len() {
        lemma_bytes_equal(a, b, i + 1);
    }
}

/// Exchanging the sides of a byte comparison flips its outcome.
pub proof fn lemma_bytes_flip(a: Seq<u8>, b: Seq<u8>, i: int)
    ensures
        order_bytes(b, a, i) == order_bytes(a, b, i).flip(),
    decreases a.len() - i,
{
    if 0 <= i < a.len() && i < b.len() && a[i] == b[i] {
        lemma_bytes_flip(a, b, i + 1);
    }
}

/// `Less` on byte sequences is transitive.
pub proof fn lemma_bytes_transitive(a: Seq<u8>, b: Seq<u8>, c: Seq<u8>, i: int)
    requires
        order_bytes(a, b, i) == Order::Less,
        order_bytes(b, c, i) == Order::Less,
    ensures
        order_bytes(a, c, i) == Order::Less,
    decreases a.len() - i,
{
    if 0 <= i < a.len() && i < b.len() && i < c.len() && a[i] == b[i] && b[i] == c[i] {
        lemma_bytes_transitive(a, b, c, i + 1);
    }
}

/// Reflexivity: every value compares `Equal` with itself.
pub proof fn lemma_order_reflexive(a: SpecValue)
    ensures
        order_values(a, a) == Order::Equal,
    decreases a, 0nat,
{
    match a {
        SpecValue::Text(Some(x)) => {
            lemma_bytes_reflexive(encode_utf8(x), 0);
        },
        SpecValue::Array(Some(x)) => {
            lemma_items_reflexive(x, 0);
        },
        SpecValue::Mapping(x) => {
            lemma_pairs_reflexive(x, 0);
        },
        _ => {},
    }
}

/// A sequence of values compares `Equal` with itself.
pub proof fn lemma_items_reflexive(a: Seq<SpecValue>, i: int)
    ensures
        order_items(a, a, i) == Order::Equal,
    decreases a, a.len() - i,
{
    if 0 <= i < a.len() {
        lemma_order_reflexive(a[i]);
        lemma_items_reflexive(a, i + 1);
    }
}

/// A sequence of pairs compares `Equal` with itself.
pub proof fn lemma_pairs_reflexive(a: Seq<(SpecValue, SpecValue)>, i: int)
    ensures
        order_pairs(a, a, i) == Order::Equal,
    decreases a, a.len() - i,
{
    if 0 <= i < a.len() {
        lemma_order_reflexive(a[i].0);
        lemma_order_reflexive(a[i].1);
        lemma_pairs_reflexive(a, i + 1);
    }
}

/// Only a value itself compares `Equal` with it.
pub proof fn lemma_order_equal(a: SpecValue, b: SpecValue)
    requires
        order_values(a, b) == Order::Equal,
    ensures
        a == b,
    decreases a, 0nat,
{
    match (a, b) {
        (SpecValue::Text(Some(x)), SpecValue::Text(Some(y))) => {
            lemma_bytes_equal(encode_utf8(x), encode_utf8(y), 0);
            assert(encode_utf8(x) =~= encode_utf8(y));
            encode_utf8_decode_utf8(x);
            encode_utf8_decode_utf8(y);
        },
        (SpecValue::Array(Some(x)), SpecValue::Array(Some(y))) => {
            lemma_items_equal(x, y, 0);
            assert(x =~= y);
        },
        (SpecValue::Mapping(x), SpecValue::Mapping(y)) => {
            lemma_pairs_equal(x, y, 0);
            assert(x =~= y);
        },
        _ => {},
    }
}

/// Sequences of values that compare `Equal` from `i` on agree from `i` on.
pub proof fn lemma_items_equal(a: Seq<SpecValue>, b: Seq<SpecValue>, i: int)
    requires
        0 <= i <= b.len(),
        order_items(a, b, i) == Order::Equal,
    ensures
        i <= a.len() ==> a.len() == b.len(),
        forall|j: int| i <= j < a.len() ==> a[j] == b[j],
    decreases a, a.len() - i,
{
    if i < a.len() {
        lemma_order_equal(a[i], b[i]);
        lemma_items_equal(a, b, i + 1);
    }
}

/// Sequences of pairs that compare `Equal` from `i` on agree from `i` on.
pub proof fn lemma_pairs_equal(
    a: Seq<(SpecValue, SpecValue)>,
    b: Seq<(SpecValue, SpecValue)>,
    i: int,
)
    requires
        0 <= i <= b.len(),
        order_pairs(a, b, i) == Order::Equal,
    ensures
        i <= a.len() ==> a.len() == b.len(),
        forall|j: int| i <= j < a.len() ==> a[j] == b[j],
    decreases a, a.len() - i,
{
    if i < a.len() {
        lemma_order_equal(a[i].0, b[i].0);
        lemma_order_equal(a[i].1, b[i].1);
        lemma_pairs_equal(a, b, i + 1);
    }
}

/// Antisymmetry: exchanging the two values flips the outcome, so `a` sorts
/// before `b` exactly when `b` sorts after `a`.
pub proof fn lemma_order_flip(a: SpecValue, b: SpecValue)
    ensures
        order_values(b, a) == order_values(a, b).flip(),
    decreases a, 0nat,
{
    match (a, b) {
        (SpecValue::Text(Some(x)), SpecValue::Text(Some(y))) => {
            lemma_bytes_flip(encode_utf8(x), encode_utf8(y), 0);
        },
        (SpecValue::Array(Some(x)), SpecValue::Array(Some(y))) => {
            lemma_items_flip(x, y, 0);
        },
        (SpecValue::Mapping(x), SpecValue::Mapping(y)) => {
            lemma_pairs_flip(x, y, 0);
        },
        _ => {},
    }
}

/// Exchanging two sequences of values flips the outcome.
pub proof fn lemma_items_flip(a: Seq<SpecValue>, b: Seq<SpecValue>, i: int)
    ensures
        order_items(b, a, i) == order_items(a, b, i).flip(),
    decreases a, a.len() - i,
{
    if 0 <= i < a.len() && i < b.len() {
        lemma_order_flip(a[i], b[i]);
        lemma_items_flip(a, b, i + 1);
    }
}

/// Exchanging two sequences of pairs flips the outcome.
pub proof fn lemma_pairs_flip(
    a: Seq<(SpecValue, SpecValue)>,
    b: Seq<(SpecValue, SpecValue)>,
    i: int,
)
    ensures
        order_pairs(b, a, i) == order_pairs(a, b, i).flip(),
    decreases a, a.len() - i,
{
    if 0 <= i < a.len() && i < b.len() {
        lemma_order_flip(a[i].0, b[i].0);
        lemma_order_flip(a[i].1, b[i].1);
        lemma_pairs_flip(a, b, i + 1);
    }
}

/// Transitivity: if `a` sorts before `b` and `b` before `c`, then `a` sorts
/// before `c`.
pub proof fn lemma_order_transitive(a: SpecValue, b: SpecValue, c: SpecValue)
    requires
        order_values(a, b) == Order::Less,
        order_values(b, c) == Order::Less,
    ensures
        order_values(a, c) == Order::Less,
    decreases a, 0nat,
{
    if rank(a) == rank(b) && rank(b) == rank(c) {
        match (a, b, c) {
            (SpecValue::Text(Some(x)), SpecValue::Text(Some(y)), SpecValue::Text(Some(z))) => {
                lemma_bytes_transitive(encode_utf8(x), encode_utf8(y), encode_utf8(z), 0);
            },
            (
                SpecValue::Array(Some(x)),
                SpecValue::Array(Some(y)),
                SpecValue::Array(Some(z)),
            ) => {
                lemma_items_transitive(x, y, z, 0);
            },
            (SpecValue::Mapping(x), SpecValue::Mapping(y), SpecValue::Mapping(z)) => {
                lemma_pairs_transitive(x, y, z, 0);
            },
            _ => {},
        }
    }
}

/// One step of a lexicographic comparison keeps `Less` transitive: from
/// `a <= b <= c` with one of the two strict, `a < c`; from both `Equal`,
/// `Equal`.
proof fn lemma_step_transitive(a: SpecValue, b: SpecValue, c: SpecValue)
    requires
        order_values(a, b) != Order::Greater,
        order_values(b, c) != Order::Greater,
        order_values(a, b) == Order::Less && order_values(b, c) == Order::Less
            ==> order_values(a, c) == Order::Less,
    ensures
        order_values(a, c) == if order_values(a, b) == Order::Equal && order_values(b, c)
            == Order::Equal {
            Order::Equal
        } else {
            Order::Less
        },
{
    if order_values(a, b) == Order::Equal {
        lemma_order_equal(a, b);
    }
    if order_values(b, c) == Order::Equal {
        lemma_order_equal(b, c);
    }
}

/// `Less` on sequences of values is transitive.
pub proof fn lemma_items_transitive(
    a: Seq<SpecValue>,
    b: Seq<SpecValue>,
    c: Seq<SpecValue>,
    i: int,
)
    requires
        order_items(a, b, i) == Order::Less,
        order_items(b, c, i) == Order::Less,
    ensures
        order_items(a, c, i) == Order::Less,
    decreases a, a.len() - i,
{
    if 0 <= i < a.len() {
        if order_values(a[i], b[i]) == Order::Less && order_values(b[i], c[i]) == Order::Less {
            lemma_order_transitive(a[i], b[i], c[i]);
        }
        lemma_step_transitive(a[i], b[i], c[i]);
        if order_values(a[i], c[i]) == Order::Equal {
            lemma_items_transitive(a, b, c, i + 1);
        }
    }
}

/// `Less` on sequences of pairs is transitive.
pub proof fn lemma_pairs_transitive(
    a: Seq<(SpecValue, SpecValue)>,
    b: Seq<(SpecValue, SpecValue)>,
    c: Seq<(SpecValue, SpecValue)>,
    i: int,
)
    requires
        order_pairs(a, b, i) == Order::Less,
        order_pairs(b, c, i) == Order::Less,
    ensures
        order_pairs(a, c, i) == Order::Less,
    decreases a, a.len() - i,
{
    if 0 <= i < a.len() {
        if order_values(a[i].0, b[i].0) == Order::Less && order_values(b[i].0, c[i].0)
            == Order::Less {
            lemma_order_transitive(a[i].0, b[i].0, c[i].0);
        }
        lemma_step_transitive(a[i].0, b[i].0, c[i].0);
        if order_values(a[i].0, c[i].0) == Order::Equal {
            if order_values(a[i].1, b[i].1) == Order::Less && order_values(b[i].1, c[i].1)
                == Order::Less {
                lemma_order_transitive(a[i].1, b[i].1, c[i].1);
            }
            lemma_step_transitive(a[i].1, b[i].1, c[i].1);
            if order_values(a[i].1, c[i].1) == Order::Equal {
                lemma_pairs_transitive(a, b, c, i + 1);
            }
        }
    }
}

/// Compares two byte strings lexicographically.
pub fn compare_bytes(a: &[u8], b: &[u8]) -> (r: Order)
    ensures
        r == order_bytes(a@, b@, 0),
{
    let mut i: usize = 0;
    while i < a.len() && i < b.len()
        invariant
            i <= a.len(),
            i <= b.len(),
            order_bytes(a@, b@, 0) == order_bytes(a@, b@, i as int),
        decreases a.len() - i,
    {
        if a[i] < b[i] {
            return Order::Less;
        }
        if a[i] > b[i] {
            return Order::Greater;
        }
        i += 1;
    }
    if i < b.len() {
        Order::Less
    } else if i < a.len() {
        Order::Greater
    } else {
        Order::Equal
    }
}

/// Compares two integers.
pub fn compare_ints(a: i64, b: i64) -> (r: Order)
    ensures
        r == order_ints(a as int, b as int),
{
    if a < b {
        Order::Less
    } else if a == b {
        Order::Equal
    } else {
        Order::Greater
    }
}

/// Compares two sequences of values lexicographically.
pub fn compare_items(a: &Vec<Value>, b: &Vec<Value>) -> (r: Order)
    ensures
        r == order_items(view_items(a@), view_items(b@), 0),
    decreases a,
{
    proof {
        lemma_view_items(a@);
        lemma_view_items(b@);
    }
    let mut i: usize = 0;
    while i < a.len() && i < b.len()
        invariant
            i <= a.len(),
            i <= b.len(),
            view_items(a@).len() == a.len(),
            view_items(b@).len() == b.len(),
            forall|j: int| 0 <= j < a.len() ==> (#[trigger] view_items(a@)[j]) == a[j]@,
            forall|j: int| 0 <= j < b.len() ==> (#[trigger] view_items(b@)[j]) == b[j]@,
            order_items(view_items(a@), view_items(b@), 0) == order_items(
                view_items(a@),
                view_items(b@),
                i as int,
            ),
        decreases a.len() - i,
    {
        match a[i].compare(&b[i]) {
            Order::Equal => {},
            other => {
                return other;
            },
        }
        i += 1;
    }
    if i < b.len() {
        Order::Less
    } else if i < a.len() {
        Order::Greater
    } else {
        Order::Equal
    }
}

/// Compares two sequences of pairs lexicographically, each pair by its key
/// and then by its value.
pub fn compare_pairs(a: &Vec<(Value, Value)>, b: &Vec<(Value, Value)>) -> (r: Order)
    ensures
        r == order_pairs(view_pairs(a@), view_pairs(b@), 0),
    decreases a,
{
    proof {
        lemma_view_pairs(a@);
        lemma_view_pairs(b@);
    }
    let mut i: usize = 0;
    while i < a.len() && i < b.len()
        invariant
            i <= a.len(),
            i <= b.len(),
            view_pairs(a@).len() == a.len(),
            view_pairs(b@).len() == b.len(),
            forall|j: int|
                0 <= j < a.len() ==> (#[trigger] view_pairs(a@)[j]) == (a[j].0@, a[j].1@),
            forall|j: int|
                0 <= j < b.len() ==> (#[trigger] view_pairs(b@)[j]) == (b[j].0@, b[j].1@),
            order_pairs(view_pairs(a@), view_pairs(b@), 0) == order_pairs(
                view_pairs(a@),
                view_pairs(b@),
                i as int,
            ),
        decreases a.len() - i,
    {
        match a[i].0.compare(&b[i].0) {
            Order::Equal => {},
            other => {
                return other;
            },
        }
        match a[i].1.compare(&b[i].1) {
            Order::Equal => {},
            other => {
                return other;
            },
        }
        i += 1;
    }
    if i < b.len() {
        Order::Less
    } else if i < a.len() {
        Order::Greater
    } else {
        Order::Equal
    }
}

impl Value {
    /// The position of the value's variant in the order of variants.
    pub fn variant_rank(&self) -> (r: u8)
        ensures
            r == rank(self@),
    {
        match self {
            Value::Int(_) => 0,
            Value::Bool(_) => 1,
            Value::String(_) => 2,
            Value::Array(_) => 3,
            Value::Mapping(_) => 4,
            Value::Null => 5,
        }
    }

    /// Compares `self` with `other` in the total order on values.
    pub fn compare(&self, other: &Value) -> (r: Order)
        ensures
            r == order_values(self@, other@),
        decreases self,
    {
        proof {
                }
        match (self, other) {
            (Value::Int(x), Value::Int(y)) => compare_ints(*x, *y),
            (Value::Bool(x), Value::Bool(y)) => {
                if *x == *y {
                    Order::Equal
                } else if *y {
                    Order::Less
                } else {
                    Order::Greater
                }
            },
            (Value::String(None), Value::String(None)) => Order::Equal,
            (Value::String(None), Value::String(Some(_))) => Order::Less,
            (Value::String(Some(_)), Value::String(None)) => Order::Greater,
            (Value::String(Some(x)), Value::String(Some(y))) => compare_bytes(
                x.as_str().as_bytes(),
                y.as_str().as_bytes(),
            ),
            (Value::Array(None), Value::Array(None)) => Order::Equal,
            (Value::Array(None), Value::Array(Some(_))) => Order::Less,
            (Value::Array(Some(_)), Value::Array(None)) => Order::Greater,
            (Value::Array(Some(x)), Value::Array(Some(y))) => compare_items(x, y),
            (Value::Mapping(x), Value::Mapping(y)) => compare_pairs(x, y),
            (Value::Null, Value::Null) => Order::Equal,
            _ => {
                let l = self.variant_rank();
                let r = other.variant_rank();
                if l < r {
                    Order::Less
                } else {
                    Order::Greater
                }
            },
        }
    }
}

/// No value sorts before itself.
pub proof fn lemma_before_irreflexive(a: SpecValue)
    ensures
        !sorts_before(a, a),
{
    reveal(sorts_before);
    lemma_order_reflexive(a);
}

/// If `a` sorts before `b` and `b` before `c`, then `a` sorts before `c`.
pub proof fn lemma_before_transitive(a: SpecValue, b: SpecValue, c: SpecValue)
    requires
        sorts_before(a, b),
        sorts_before(b, c),
    ensures
        sorts_before(a, c),
{
    reveal(sorts_before);
    lemma_order_transitive(a, b, c);
}

/// Of two values exactly one holds: they are equal, the first sorts before
/// the second, or the second before the first.
pub proof fn lemma_before_total(a: SpecValue, b: SpecValue)
    ensures
        a == b || sorts_before(a, b) || sorts_before(b, a),
        !(sorts_before(a, b) && sorts_before(b, a)),
        a == b ==> !sorts_before(a, b) && !sorts_before(b, a),
{
    reveal(sorts_before);
    lemma_order_flip(a, b);
    if order_values(a, b) == Order::Equal {
        lemma_order_equal(a, b);
    }
    if a == b {
        lemma_order_reflexive(a);
    }
}

} // verus!
