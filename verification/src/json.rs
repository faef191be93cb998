//! JSON documents as the graders read them, with the equality of JSON values
//! and the containment test that a `jsonContains` grader applies.

use vstd::prelude::*;
use crate::text::{less_text, lemma_text_less_irreflexive, lemma_text_less_transitive, same_text, text_less};

verus! {

broadcast use vstd::std_specs::vec::group_vec_axioms;

/// A JSON number as it was read: a non-negative integer, a negative
/// integer, or a finite floating-point number held by its IEEE-754 bits.
#[derive(PartialEq, Eq, Structural, Clone, Copy, Debug)]
pub enum Number {
    PosInt(u64),
    NegInt(i64),
    Float(u64),
}

/// A JSON value. An object's members come in ascending key order, each key
/// once, as a parsed JSON object holds them.
#[derive(Debug)]
pub enum Json {
    Null,
    Bool(bool),
    Number(Number),
    String(String),
    Array(Vec<Json>),
    Object(Vec<(String, Json)>),
}

/// The bits of a float without its sign.
pub open spec fn magnitude_bits(bits: u64) -> u64 {
    bits & 0x7fff_ffff_ffff_ffffu64
}

/// Two numbers are equal when they are of one kind and equal there; two
/// floats are equal when their bits are, or when both are zero of either sign.
pub open spec fn number_eq(a: Number, b: Number) -> bool {
    match (a, b) {
        (Number::PosInt(x), Number::PosInt(y)) => x == y,
        (Number::NegInt(x), Number::NegInt(y)) => x == y,
        (Number::Float(x), Number::Float(y)) => x == y || (magnitude_bits(x) == 0
            && magnitude_bits(y) == 0),
        _ => false,
    }
}

/// Equality of JSON values: of one kind, and equal member by member.
pub open spec fn json_eq(a: Json, b: Json) -> bool
    decreases a,
{
    match a {
        Json::Null => b is Null,
        Json::Bool(x) => b matches Json::Bool(y) && x == y,
        Json::Number(x) => b matches Json::Number(y) && number_eq(x, y),
        Json::String(x) => b matches Json::String(y) && x@ == y@,
        Json::Array(xs) => b matches Json::Array(ys) && xs.len() == ys.len() && forall|i: int|
            #![trigger xs[i]]
            0 <= i < xs.len() ==> json_eq(xs[i], ys[i]),
        Json::Object(xs) => b matches Json::Object(ys) && xs.len() == ys.len() && forall|i: int|
            #![trigger xs[i]]
            0 <= i < xs.len() ==> xs[i].0@ == ys[i].0@ && json_eq(xs[i].1, ys[i].1),
    }
}

/// Whether two numbers are equal.
pub fn numbers_equal(a: Number, b: Number) -> (r: bool)
    ensures
        r == number_eq(a, b),
{
    match (a, b) {
        (Number::PosInt(x), Number::PosInt(y)) => x == y,
        (Number::NegInt(x), Number::NegInt(y)) => x == y,
        (Number::Float(x), Number::Float(y)) => x == y || (x & 0x7fff_ffff_ffff_ffffu64 == 0 && y
            & 0x7fff_ffff_ffff_ffffu64 == 0),
        _ => false,
    }
}

/// Whether two JSON values are equal.
pub fn json_equal(a: &Json, b: &Json) -> (r: bool)
    requires
        json_well_formed(*a),
        json_well_formed(*b),
    ensures
        r == json_eq(*a, *b),
    decreases a,
{
    match a {
        Json::Null => match b {
            Json::Null => true,
            _ => false,
        },
        Json::Bool(x) => match b {
            Json::Bool(y) => *x == *y,
            _ => false,
        },
        Json::Number(x) => match b {
            Json::Number(y) => numbers_equal(*x, *y),
            _ => false,
        },
        Json::String(x) => match b {
            Json::String(y) => same_text(x.as_str(), y.as_str()),
            _ => false,
        },
        Json::Array(xs) => match b {
            Json::Array(ys) => {
                if xs.len() != ys.len() {
                    return false;
                }
                let mut i: usize = 0;
                while i < xs.len()
                    invariant
                        *a == Json::Array(*xs),
                        decreases_to!(*a => *xs),
                        *b == Json::Array(*ys),
                        json_well_formed(*a),
                        json_well_formed(*b),
                        xs.len() == ys.len(),
                        i <= xs.len(),
                        forall|k: int| 0 <= k < i ==> json_eq(#[trigger] xs@[k], ys@[k]),
                    decreases xs.len() - i,
                {
                    proof {
                        assert(decreases_to!(*xs => xs[i as int]));
                        assert(decreases_to!(*a => xs[i as int]));
                        assert(a->Array_0@ == xs@ && b->Array_0@ == ys@);
                        assert(json_well_formed(xs@[i as int]) && json_well_formed(ys@[i as int]));
                    }
                    if !json_equal(&xs[i], &ys[i]) {
                        return false;
                    }
                    i = i + 1;
                }
                true
            },
            _ => false,
        },
        Json::Object(xs) => match b {
            Json::Object(ys) => {
                if xs.len() != ys.len() {
                    return false;
                }
                let mut i: usize = 0;
                while i < xs.len()
                    invariant
                        *a == Json::Object(*xs),
                        decreases_to!(*a => *xs),
                        *b == Json::Object(*ys),
                        json_well_formed(*a),
                        json_well_formed(*b),
                        xs.len() == ys.len(),
                        i <= xs.len(),
                        forall|k: int|
                            #![trigger xs@[k]]
                            0 <= k < i ==> xs@[k].0@ == ys@[k].0@ && json_eq(xs@[k].1, ys@[k].1),
                    decreases xs.len() - i,
                {
                    if !same_text(xs[i].0.as_str(), ys[i].0.as_str()) {
                        return false;
                    }
                    proof {
                        assert(decreases_to!(*xs => xs[i as int]));
                        assert(decreases_to!(*a => xs[i as int]));
                        assert(a->Object_0@ == xs@ && b->Object_0@ == ys@);
                        assert(json_well_formed(xs@[i as int].1) && json_well_formed(ys@[i as int].1));
                    }
                    if !json_equal(&xs[i].1, &ys[i].1) {
                        return false;
                    }
                    i = i + 1;
                }
                true
            },
            _ => false,
        },
    }
}

/// `k` is the position of the first member of `members` named `key`.
pub open spec fn first_member(members: Seq<(String, Json)>, key: Seq<char>, k: int) -> bool {
    &&& 0 <= k < members.len()
    &&& members[k].0@ == key
    &&& forall|i: int| 0 <= i < k ==> #[trigger] members[i].0@ != key
}

/// Whether `actual` holds the structure of `expected`: each member of an
/// expected object is present in the actual object with a value that holds
/// the expected one; each element of an expected array is held by some
/// element of the actual array; any other expected value must be equal.
pub open spec fn json_holds(actual: Json, expected: Json) -> bool
    decreases expected, 0int,
{
    match expected {
        Json::Object(es) => match actual {
            Json::Object(xs) => forall|j: int|
                #![trigger es@[j]]
                0 <= j < es@.len() ==> member_holds(xs@, es@[j].0@, es@[j].1),
            _ => json_eq(actual, expected),
        },
        Json::Array(es) => match actual {
            Json::Array(xs) => forall|j: int|
                #![trigger es@[j]]
                0 <= j < es@.len() ==> element_holds(xs@, es@[j]),
            _ => json_eq(actual, expected),
        },
        _ => json_eq(actual, expected),
    }
}

/// The first member of `members` named `key` holds `value`.
pub open spec fn member_holds(members: Seq<(String, Json)>, key: Seq<char>, value: Json) -> bool
    decreases value, 1int,
{
    exists|k: int|
        #![trigger members[k]]
        first_member(members, key, k) && json_holds(members[k].1, value)
}

/// Some element of `items` holds `value`.
pub open spec fn element_holds(items: Seq<Json>, value: Json) -> bool
    decreases value, 1int,
{
    exists|k: int| #![trigger items[k]] 0 <= k < items.len() && json_holds(items[k], value)
}

/// The position of the first member of `members` named `key`, if any.
pub fn find_member(members: &Vec<(String, Json)>, key: &String) -> (r: Option<usize>)
    ensures
        r matches Some(k) ==> first_member(members@, key@, k as int),
        r is None ==> forall|i: int| 0 <= i < members.len() ==> #[trigger] members@[i].0@ != key@,
{
    let mut i: usize = 0;
    while i < members.len()
        invariant
            i <= members.len(),
            forall|q: int| 0 <= q < i ==> #[trigger] members@[q].0@ != key@,
        decreases members.len() - i,
    {
        if same_text(members[i].0.as_str(), key.as_str()) {
            return Some(i);
        }
        i = i + 1;
    }
    None
}

/// Whether `actual` holds the structure of `expected` (see `json_holds`).
pub fn json_contains(actual: &Json, expected: &Json) -> (r: bool)
    requires
        json_well_formed(*actual),
        json_well_formed(*expected),
    ensures
        r == json_holds(*actual, *expected),
    decreases expected,
{
    match (actual, expected) {
        (Json::Object(xs), Json::Object(es)) => {
            proof {
                assert(expected->Object_0@ == es@ && actual->Object_0@ == xs@);
            }
            let mut j: usize = 0;
            while j < es.len()
                invariant
                    *actual == Json::Object(*xs),
                    *expected == Json::Object(*es),
                    json_well_formed(*actual),
                    json_well_formed(*expected),
                    decreases_to!(*expected => *es),
                    j <= es.len(),
                    forall|q: int|
                        #![trigger es@[q]]
                        0 <= q < j ==> member_holds(xs@, es@[q].0@, es@[q].1),
                decreases es.len() - j,
            {
                match find_member(xs, &es[j].0) {
                    None => {
                        assert(!member_holds(xs@, es@[j as int].0@, es@[j as int].1)) by {
                            if member_holds(xs@, es@[j as int].0@, es@[j as int].1) {
                                let k2 = choose|k2: int|
                                    #![trigger xs@[k2]]
                                    first_member(xs@, es@[j as int].0@, k2) && json_holds(
                                        xs@[k2].1,
                                        es@[j as int].1,
                                    );
                                assert(xs@[k2].0@ != es@[j as int].0@);
                            }
                        }
                        assert(expected->Object_0@ == es@ && actual->Object_0@ == xs@);
                        return false;
                    },
                    Some(k) => {
                        proof {
                            assert(decreases_to!(*es => es[j as int]));
                            assert(expected->Object_0@ == es@ && actual->Object_0@ == xs@);
                            assert(json_well_formed(xs@[k as int].1) && json_well_formed(es@[j as int].1));
                        }
                        if !json_contains(&xs[k].1, &es[j].1) {
                            assert(!member_holds(xs@, es@[j as int].0@, es@[j as int].1)) by {
                                if member_holds(xs@, es@[j as int].0@, es@[j as int].1) {
                                    let k2 = choose|k2: int|
                                        #![trigger xs@[k2]]
                                        first_member(xs@, es@[j as int].0@, k2) && json_holds(
                                            xs@[k2].1,
                                            es@[j as int].1,
                                        );
                                    assert(k2 == k);
                                }
                            }
                            assert(expected->Object_0@ == es@ && actual->Object_0@ == xs@);
                            return false;
                        }
                        assert(member_holds(xs@, es@[j as int].0@, es@[j as int].1)) by {
                            assert(first_member(xs@, es@[j as int].0@, k as int));
                        }
                    },
                }
                j = j + 1;
            }
            true
        },
        (Json::Array(xs), Json::Array(es)) => {
            proof {
                assert(expected->Array_0@ == es@ && actual->Array_0@ == xs@);
            }
            let mut j: usize = 0;
            while j < es.len()
                invariant
                    *actual == Json::Array(*xs),
                    *expected == Json::Array(*es),
                    json_well_formed(*actual),
                    json_well_formed(*expected),
                    decreases_to!(*expected => *es),
                    j <= es.len(),
                    forall|q: int| #![trigger es@[q]] 0 <= q < j ==> element_holds(xs@, es@[q]),
                decreases es.len() - j,
            {
                let mut k: usize = 0;
                let mut found = false;
                while k < xs.len() && !found
                    invariant
                        *actual == Json::Array(*xs),
                        *expected == Json::Array(*es),
                        json_well_formed(*actual),
                        json_well_formed(*expected),
                        decreases_to!(*expected => *es),
                        j < es.len(),
                        k <= xs.len(),
                        found ==> element_holds(xs@, es@[j as int]),
                        !found ==> forall|k2: int|
                            #![trigger xs@[k2]]
                            0 <= k2 < k ==> !json_holds(xs@[k2], es@[j as int]),
                    decreases xs.len() - k,
                {
                    proof {
                        assert(decreases_to!(*es => es[j as int]));
                        assert(expected->Array_0@ == es@ && actual->Array_0@ == xs@);
                        assert(json_well_formed(xs@[k as int]) && json_well_formed(es@[j as int]));
                    }
                    if json_contains(&xs[k], &es[j]) {
                        assert(element_holds(xs@, es@[j as int])) by {
                            assert(0 <= k < xs@.len() && json_holds(xs@[k as int], es@[j as int]));
                        }
                        found = true;
                    }
                    k = k + 1;
                }
                if !found {
                    assert(!element_holds(xs@, es@[j as int])) by {
                        if element_holds(xs@, es@[j as int]) {
                            let k2 = choose|k2: int|
                                #![trigger xs@[k2]]
                                0 <= k2 < xs@.len() && json_holds(xs@[k2], es@[j as int]);
                            assert(!json_holds(xs@[k2], es@[j as int]));
                        }
                    }
                    assert(expected->Array_0@ == es@ && actual->Array_0@ == xs@);
                    return false;
                }
                j = j + 1;
            }
            true
        },
        _ => json_equal(actual, expected),
    }
}

/// Every object in `v` holds its members in strictly ascending order of
/// their keys, so that no key occurs twice, as a parsed JSON document holds
/// them. Of such values `json_eq` is the equality of JSON values.
pub open spec fn json_well_formed(v: Json) -> bool
    decreases v,
{
    match v {
        Json::Array(xs) => forall|i: int|
            #![trigger xs@[i]]
            0 <= i < xs@.len() ==> json_well_formed(xs@[i]),
        Json::Object(xs) => {
            &&& forall|i: int, k: int|
                #![trigger xs@[i], xs@[k]]
                0 <= i < k < xs@.len() ==> text_less(xs@[i].0@, xs@[k].0@)
            &&& forall|i: int| #![trigger xs@[i]] 0 <= i < xs@.len() ==> json_well_formed(xs@[i].1)
        },
        _ => true,
    }
}

/// Whether every object in `v` holds its members in strictly ascending
/// order of their keys.
pub fn well_formed_json(v: &Json) -> (r: bool)
    ensures
        r == json_well_formed(*v),
    decreases v,
{
    match v {
        Json::Array(xs) => {
            let mut i: usize = 0;
            while i < xs.len()
                invariant
                    *v == Json::Array(*xs),
                    decreases_to!(*v => *xs),
                    i <= xs.len(),
                    forall|k: int| 0 <= k < i ==> json_well_formed(#[trigger] xs@[k]),
                decreases xs.len() - i,
            {
                proof {
                    assert(decreases_to!(*xs => xs[i as int]));
                    assert(decreases_to!(*v => xs[i as int]));
                }
                if !well_formed_json(&xs[i]) {
                    assert(v->Array_0@ == xs@);
                    return false;
                }
                i = i + 1;
            }
            assert(v->Array_0@ == xs@);
            true
        },
        Json::Object(xs) => {
            let mut i: usize = 0;
            while i < xs.len()
                invariant
                    *v == Json::Object(*xs),
                    decreases_to!(*v => *xs),
                    i <= xs.len(),
                    forall|k: int| #![trigger xs@[k]] 0 <= k < i ==> json_well_formed(xs@[k].1),
                    forall|a: int, b: int|
                        #![trigger xs@[a], xs@[b]]
                        0 <= a < b < i ==> text_less(xs@[a].0@, xs@[b].0@),
                decreases xs.len() - i,
            {
                if i > 0 && !less_text(xs[i - 1].0.as_str(), xs[i].0.as_str()) {
                    assert(v->Object_0@ == xs@);
                    assert(!text_less(xs@[i - 1].0@, xs@[i as int].0@));
                    return false;
                }
                proof {
                    assert(decreases_to!(*xs => xs[i as int]));
                    assert(decreases_to!(*v => xs[i as int]));
                }
                if !well_formed_json(&xs[i].1) {
                    assert(v->Object_0@ == xs@);
                    return false;
                }
                assert forall|a: int, b: int|
                    #![trigger xs@[a], xs@[b]]
                    0 <= a < b < i + 1 implies text_less(xs@[a].0@, xs@[b].0@) by {
                    if b == i && a < i - 1 {
                        lemma_text_less_transitive(xs@[a].0@, xs@[i - 1].0@, xs@[b].0@);
                    }
                }
                i = i + 1;
            }
            assert(v->Object_0@ == xs@);
            true
        },
        _ => true,
    }
}

/// Every JSON value equals itself.
pub proof fn lemma_json_eq_reflexive(v: Json)
    ensures
        json_eq(v, v),
    decreases v,
{
    match v {
        Json::Array(xs) => {
            assert forall|i: int| #![trigger xs[i]] 0 <= i < xs.len() implies json_eq(xs[i], xs[i]) by {
                lemma_json_eq_reflexive(xs[i]);
            }
        },
        Json::Object(xs) => {
            assert forall|i: int| #![trigger xs[i]] 0 <= i < xs.len() implies json_eq(xs[i].1, xs[i].1) by {
                lemma_json_eq_reflexive(xs[i].1);
            }
        },
        _ => {},
    }
}

/// Equality of JSON values is symmetric.
pub proof fn lemma_json_eq_symmetric(a: Json, b: Json)
    requires
        json_eq(a, b),
    ensures
        json_eq(b, a),
    decreases a,
{
    match a {
        Json::Array(xs) => {
            let ys = b->Array_0;
            assert forall|i: int| #![trigger ys[i]] 0 <= i < ys.len() implies json_eq(ys[i], xs[i]) by {
                assert(json_eq(xs[i], ys[i]));
                lemma_json_eq_symmetric(xs[i], ys[i]);
            }
        },
        Json::Object(xs) => {
            let ys = b->Object_0;
            assert forall|i: int| #![trigger ys[i]] 0 <= i < ys.len() implies ys[i].0@ == xs[i].0@ && json_eq(ys[i].1, xs[i].1) by {
                assert(json_eq(xs[i].1, ys[i].1));
                lemma_json_eq_symmetric(xs[i].1, ys[i].1);
            }
        },
        _ => {},
    }
}

/// Equality of JSON values is transitive.
pub proof fn lemma_json_eq_transitive(a: Json, b: Json, c: Json)
    requires
        json_eq(a, b),
        json_eq(b, c),
    ensures
        json_eq(a, c),
    decreases a,
{
    match a {
        Json::Array(xs) => {
            let ys = b->Array_0;
            let zs = c->Array_0;
            assert forall|i: int| #![trigger xs[i]] 0 <= i < xs.len() implies json_eq(xs[i], zs[i]) by {
                assert(json_eq(xs[i], ys[i]));
                assert(json_eq(ys[i], zs[i]));
                lemma_json_eq_transitive(xs[i], ys[i], zs[i]);
            }
        },
        Json::Object(xs) => {
            let ys = b->Object_0;
            let zs = c->Object_0;
            assert forall|i: int| #![trigger xs[i]] 0 <= i < xs.len() implies xs[i].0@ == zs[i].0@ && json_eq(xs[i].1, zs[i].1) by {
                assert(json_eq(xs[i].1, ys[i].1));
                assert(json_eq(ys[i].1, zs[i].1));
                lemma_json_eq_transitive(xs[i].1, ys[i].1, zs[i].1);
            }
        },
        _ => {},
    }
}

/// A well-formed JSON document holds itself: a `jsonContains` grader whose
/// expected value is the document read passes.
pub proof fn lemma_json_holds_reflexive(v: Json)
    requires
        json_well_formed(v),
    ensures
        json_holds(v, v),
    decreases v,
{
    match v {
        Json::Array(xs) => {
            assert(v->Array_0@ == xs@);
            assert forall|j: int| #![trigger xs@[j]] 0 <= j < xs@.len() implies element_holds(
                xs@,
                xs@[j],
            ) by {
                assert(json_well_formed(xs@[j]));
                lemma_json_holds_reflexive(xs@[j]);
            }
        },
        Json::Object(xs) => {
            assert(v->Object_0@ == xs@);
            assert forall|j: int| #![trigger xs@[j]] 0 <= j < xs@.len() implies member_holds(
                xs@,
                xs@[j].0@,
                xs@[j].1,
            ) by {
                assert(json_well_formed(xs@[j].1));
                lemma_json_holds_reflexive(xs@[j].1);
                assert forall|i: int| 0 <= i < j implies #[trigger] xs@[i].0@ != xs@[j].0@ by {
                    assert(text_less(xs@[i].0@, xs@[j].0@));
                    lemma_text_less_irreflexive(xs@[j].0@);
                }
                assert(first_member(xs@, xs@[j].0@, j));
            }
        },
        _ => {
            lemma_json_eq_reflexive(v);
        },
    }
}

/// A document equal to the expected one holds it: a file that passes a
/// `jsonEquals` grader passes the `jsonContains` grader with the same value.
pub proof fn lemma_json_eq_implies_holds(actual: Json, expected: Json)
    requires
        json_well_formed(actual),
        json_eq(actual, expected),
    ensures
        json_holds(actual, expected),
    decreases expected,
{
    match expected {
        Json::Array(es) => {
            let xs = actual->Array_0;
            assert(expected->Array_0@ == es@);
            assert forall|j: int| #![trigger es@[j]] 0 <= j < es@.len() implies element_holds(
                xs@,
                es@[j],
            ) by {
                assert(json_eq(xs[j], es[j]));
                assert(json_well_formed(xs@[j]));
                lemma_json_eq_implies_holds(xs@[j], es@[j]);
            }
        },
        Json::Object(es) => {
            let xs = actual->Object_0;
            assert(expected->Object_0@ == es@);
            assert forall|j: int| #![trigger es@[j]] 0 <= j < es@.len() implies member_holds(
                xs@,
                es@[j].0@,
                es@[j].1,
            ) by {
                assert(xs[j].0@ == es[j].0@ && json_eq(xs[j].1, es[j].1));
                assert(json_well_formed(xs@[j].1));
                lemma_json_eq_implies_holds(xs@[j].1, es@[j].1);
                assert forall|i: int| 0 <= i < j implies #[trigger] xs@[i].0@ != es@[j].0@ by {
                    assert(text_less(xs@[i].0@, xs@[j].0@));
                    lemma_text_less_irreflexive(xs@[j].0@);
                }
                assert(first_member(xs@, es@[j].0@, j));
            }
        },
        _ => {},
    }
}

/// Holding is transitive: what holds a document holds everything that the
/// document holds.
pub proof fn lemma_json_holds_transitive(a: Json, b: Json, c: Json)
    requires
        json_holds(a, b),
        json_holds(b, c),
    ensures
        json_holds(a, c),
    decreases c,
{
    match c {
        Json::Array(cs) => {
            assert(c->Array_0@ == cs@);
            if b is Array && a is Array {
                let bs = b->Array_0;
                let xs = a->Array_0;
                assert forall|j: int| #![trigger cs@[j]] 0 <= j < cs@.len() implies element_holds(
                    xs@,
                    cs@[j],
                ) by {
                    assert(element_holds(bs@, cs@[j]));
                    let m = choose|m: int|
                        #![trigger bs@[m]]
                        0 <= m < bs@.len() && json_holds(bs@[m], cs@[j]);
                    assert(element_holds(xs@, bs@[m]));
                    let n = choose|n: int|
                        #![trigger xs@[n]]
                        0 <= n < xs@.len() && json_holds(xs@[n], bs@[m]);
                    lemma_json_holds_transitive(xs@[n], bs@[m], cs@[j]);
                    assert(0 <= n < xs@.len() && json_holds(xs@[n], cs@[j]));
                }
            }
        },
        Json::Object(cs) => {
            assert(c->Object_0@ == cs@);
            if b is Object && a is Object {
                let bs = b->Object_0;
                let xs = a->Object_0;
                assert forall|j: int| #![trigger cs@[j]] 0 <= j < cs@.len() implies member_holds(
                    xs@,
                    cs@[j].0@,
                    cs@[j].1,
                ) by {
                    assert(member_holds(bs@, cs@[j].0@, cs@[j].1));
                    let m = choose|m: int|
                        #![trigger bs@[m]]
                        first_member(bs@, cs@[j].0@, m) && json_holds(bs@[m].1, cs@[j].1);
                    assert(member_holds(xs@, bs@[m].0@, bs@[m].1));
                    let n = choose|n: int|
                        #![trigger xs@[n]]
                        first_member(xs@, bs@[m].0@, n) && json_holds(xs@[n].1, bs@[m].1);
                    lemma_json_holds_transitive(xs@[n].1, bs@[m].1, cs@[j].1);
                    assert(first_member(xs@, cs@[j].0@, n) && json_holds(xs@[n].1, cs@[j].1));
                }
            }
        },
        _ => {
            lemma_json_eq_transitive(a, b, c);
        },
    }
}

/// Equality of scalars is equality of their values: null equals null alone;
/// booleans, strings and integers of one kind are equal when their values
/// are; floats when their bits are or both are zero of either sign; values
/// of different kinds, and integers of different signs, are never equal.
pub proof fn lemma_json_eq_scalars(a: Json, b: Json)
    ensures
        a is Null ==> (json_eq(a, b) <==> b is Null),
        a matches Json::Bool(x) ==> (json_eq(a, b) <==> (b matches Json::Bool(y) && x == y)),
        a matches Json::String(x) ==> (json_eq(a, b) <==> (b matches Json::String(y) && x@ == y@)),
        a matches Json::Number(Number::PosInt(x)) ==> (json_eq(a, b) <==> (b matches Json::Number(
            Number::PosInt(y),
        ) && x == y)),
        a matches Json::Number(Number::NegInt(x)) ==> (json_eq(a, b) <==> (b matches Json::Number(
            Number::NegInt(y),
        ) && x == y)),
        a matches Json::Number(Number::Float(x)) ==> (json_eq(a, b) <==> (b matches Json::Number(
            Number::Float(y),
        ) && (x == y || (x & 0x7fff_ffff_ffff_ffffu64 == 0 && y & 0x7fff_ffff_ffff_ffffu64 == 0)))),
        a is Array && !(b is Array) ==> !json_eq(a, b),
        a is Object && !(b is Object) ==> !json_eq(a, b),
{
}

/// Equal arrays have the same length and equal elements in order; equal
/// objects have the same number of members, with the same keys in the same
/// order, so an object whose member `k` has a key the other lacks is not
/// equal to it.
pub proof fn lemma_json_eq_containers(a: Json, b: Json, k: int)
    ensures
        a matches Json::Array(xs) ==> b matches Json::Array(ys) ==> (json_eq(a, b) ==> xs@.len()
            == ys@.len() && forall|i: int| 0 <= i < xs@.len() ==> json_eq(#[trigger] xs@[i], ys@[i])),
        a matches Json::Object(xs) ==> b matches Json::Object(ys) ==> (json_eq(a, b) ==> xs@.len()
            == ys@.len() && forall|i: int| 0 <= i < xs@.len() ==> #[trigger] xs@[i].0@ == ys@[i].0@),
        a matches Json::Object(xs) ==> b matches Json::Object(ys) ==> (xs@.len() != ys@.len()
            ==> !json_eq(a, b)),
        a matches Json::Object(xs) ==> b matches Json::Object(ys) ==> (0 <= k < xs@.len() && (
        forall|j: int| 0 <= j < ys@.len() ==> #[trigger] ys@[j].0@ != xs@[k].0@) ==> !json_eq(a, b)),
{
    match (a, b) {
        (Json::Array(xs), Json::Array(ys)) => {
            assert(a->Array_0@ == xs@ && b->Array_0@ == ys@);
            if json_eq(a, b) {
                assert forall|i: int| 0 <= i < xs@.len() implies json_eq(#[trigger] xs@[i], ys@[i]) by {
                    assert(json_eq(xs[i], ys[i]));
                }
            }
        },
        (Json::Object(xs), Json::Object(ys)) => {
            assert(a->Object_0@ == xs@ && b->Object_0@ == ys@);
            if json_eq(a, b) {
                assert(xs.len() == ys.len());
                assert forall|i: int| 0 <= i < xs@.len() implies #[trigger] xs@[i].0@ == ys@[i].0@ by {
                    assert(xs[i].0@ == ys[i].0@);
                }
                if 0 <= k < xs@.len() {
                    assert(ys@[k].0@ == xs@[k].0@);
                }
            }
        },
        _ => {},
    }
}

/// Containment of a value that is neither an object nor an array is
/// equality: a string holds an expected string only when the two are the
/// same text. An expected object is held by objects alone, an expected
/// array by arrays alone.
pub proof fn lemma_json_holds_scalar(actual: Json, expected: Json)
    ensures
        !(expected is Object) && !(expected is Array) ==> (json_holds(actual, expected) <==> json_eq(
            actual,
            expected,
        )),
        actual matches Json::String(x) ==> expected matches Json::String(e) ==> (json_holds(
            actual,
            expected,
        ) <==> x@ == e@),
        expected is Object && !(actual is Object) ==> !json_holds(actual, expected),
        expected is Array && !(actual is Array) ==> !json_holds(actual, expected),
{
    lemma_json_eq_scalars(actual, expected);
    match (actual, expected) {
        (Json::String(x), Json::String(e)) => {
            assert(json_holds(actual, expected) == json_eq(actual, expected));
            assert(json_eq(actual, expected) == (x@ == e@));
        },
        _ => {},
    }
}

} // verus!
