//! JSON attribute values: equality, canonical form, and their readings as
//! numbers and text.
use vstd::prelude::*;

use crate::double::{double_value, finite_double, law_doubles_compare_as_numbers, SIGN};
use crate::outside::{integer_as_double, integer_double};
use crate::text::text_eq;

verus! {

/// A JSON number: a non-negative integer, a negative integer, or a finite
/// double given by its IEEE-754 bits.
#[derive(Clone, Copy, Debug)]
pub enum Number {
    PosInt(u64),
    NegInt(i64),
    Float(u64),
}

/// A JSON value. The members of an object stand in ascending key order.
#[derive(Debug)]
pub enum Json {
    Null,
    Bool(bool),
    Number(Number),
    Text(String),
    Array(Vec<Json>),
    Object(Vec<(String, Json)>),
}

/// A JSON value as a mathematical tree.
pub enum JsonView {
    Null,
    Bool(bool),
    Number(Number),
    Text(Seq<char>),
    Array(Seq<JsonView>),
    Object(Seq<(Seq<char>, JsonView)>),
}

impl View for Json {
    type V = JsonView;

    open spec fn view(&self) -> JsonView
        decreases self,
    {
        match self {
            Json::Null => JsonView::Null,
            Json::Bool(b) => JsonView::Bool(*b),
            Json::Number(n) => JsonView::Number(*n),
            Json::Text(s) => JsonView::Text(s@),
            Json::Array(v) => JsonView::Array(
                Seq::new(v@.len(), |i: int| if 0 <= i < v@.len() { v@[i].view() } else { arbitrary() }),
            ),
            Json::Object(v) => JsonView::Object(
                Seq::new(
                    v@.len(),
                    |i: int|
                        if 0 <= i < v@.len() {
                            (v@[i].0@, v@[i].1.view())
                        } else {
                            arbitrary()
                        },
                ),
            ),
        }
    }
}

/// Negative zero becomes positive zero; every other number stays.
pub open spec fn canonical_number(n: Number) -> Number {
    match n {
        Number::Float(bits) => if bits == SIGN { Number::Float(0) } else { n },
        _ => n,
    }
}

/// The value with every floating-point zero written as positive zero.
pub open spec fn canonical(value: JsonView) -> JsonView
    decreases value,
{
    match value {
        JsonView::Number(n) => JsonView::Number(canonical_number(n)),
        JsonView::Array(v) => JsonView::Array(
            Seq::new(v.len(), |i: int| if 0 <= i < v.len() { canonical(v[i]) } else { arbitrary() }),
        ),
        JsonView::Object(v) => JsonView::Object(
            Seq::new(
                v.len(),
                |i: int| if 0 <= i < v.len() { (v[i].0, canonical(v[i].1)) } else { arbitrary() },
            ),
        ),
        _ => value,
    }
}

/// JSON equality: the same tree, with the two floating-point zeros equal. An
/// integer never equals a floating-point number.
pub open spec fn json_equal(a: JsonView, b: JsonView) -> bool {
    canonical(a) == canonical(b)
}

/// The value read as a double, for numbers.
pub open spec fn as_double_spec(value: JsonView) -> Option<u64> {
    match value {
        JsonView::Number(Number::PosInt(n)) => integer_double(n as int),
        JsonView::Number(Number::NegInt(n)) => integer_double(n as int),
        JsonView::Number(Number::Float(bits)) => Some(bits),
        _ => None,
    }
}

/// The value read as text, for strings.
pub open spec fn as_text_spec(value: JsonView) -> Option<Seq<char>> {
    match value {
        JsonView::Text(s) => Some(s),
        _ => None,
    }
}

/// Numbers are in range: a floating-point number is finite.
pub open spec fn number_valid(n: Number) -> bool {
    match n {
        Number::Float(bits) => finite_double(bits),
        _ => true,
    }
}

fn same_number(a: Number, b: Number) -> (same: bool)
    ensures
        same == (canonical_number(a) == canonical_number(b)),
{
    match (a, b) {
        (Number::PosInt(x), Number::PosInt(y)) => x == y,
        (Number::NegInt(x), Number::NegInt(y)) => x == y,
        (Number::Float(x), Number::Float(y)) => {
            let x0: u64 = if x == SIGN { 0 } else { x };
            let y0: u64 = if y == SIGN { 0 } else { y };
            x0 == y0
        },
        _ => false,
    }
}

impl Json {
    /// JSON equality.
    pub fn equals(&self, other: &Json) -> (equal: bool)
        ensures
            equal == json_equal(self@, other@),
        decreases self,
    {
        proof {
            reveal_with_fuel(canonical, 2);
            reveal_with_fuel(<Json as View>::view, 2);
        }
        match (self, other) {
            (Json::Null, Json::Null) => true,
            (Json::Bool(a), Json::Bool(b)) => *a == *b,
            (Json::Number(a), Json::Number(b)) => same_number(*a, *b),
            (Json::Text(a), Json::Text(b)) => text_eq(a.as_str(), b.as_str()),
            (Json::Array(a), Json::Array(b)) => {
                let ghost x = canonical(self@)->Array_0;
                let ghost y = canonical(other@)->Array_0;
                if a.len() != b.len() {
                    assert(x.len() != y.len());
                    return false;
                }
                let mut i: usize = 0;
                while i < a.len()
                    invariant
                        i <= a@.len(),
                        a@.len() == b@.len(),
                        *self == Json::Array(*a),
                        canonical(self@) == JsonView::Array(x),
                        canonical(other@) == JsonView::Array(y),
                        x.len() == a@.len(),
                        y.len() == b@.len(),
                        forall|j: int| 0 <= j < x.len() ==> x[j] == canonical(#[trigger] a@[j]@),
                        forall|j: int| 0 <= j < y.len() ==> y[j] == canonical(#[trigger] b@[j]@),
                        forall|j: int| 0 <= j < i ==> x[j] == y[j],
                    decreases a@.len() - i,
                {
                    if !a[i].equals(&b[i]) {
                        assert(x[i as int] != y[i as int]);
                        return false;
                    }
                    i += 1;
                }
                assert(x =~= y);
                true
            },
            (Json::Object(a), Json::Object(b)) => {
                let ghost x = canonical(self@)->Object_0;
                let ghost y = canonical(other@)->Object_0;
                if a.len() != b.len() {
                    assert(x.len() != y.len());
                    return false;
                }
                let mut i: usize = 0;
                while i < a.len()
                    invariant
                        i <= a@.len(),
                        a@.len() == b@.len(),
                        *self == Json::Object(*a),
                        canonical(self@) == JsonView::Object(x),
                        canonical(other@) == JsonView::Object(y),
                        x.len() == a@.len(),
                        y.len() == b@.len(),
                        forall|j: int|
                            0 <= j < x.len() ==> x[j] == ((#[trigger] a@[j]).0@, canonical(
                                a@[j].1@,
                            )),
                        forall|j: int|
                            0 <= j < y.len() ==> y[j] == ((#[trigger] b@[j]).0@, canonical(
                                b@[j].1@,
                            )),
                        forall|j: int| 0 <= j < i ==> x[j] == y[j],
                    decreases a@.len() - i,
                {
                    if !text_eq(a[i].0.as_str(), b[i].0.as_str()) || !a[i].1.equals(&b[i].1) {
                        assert(x[i as int] != y[i as int]);
                        return false;
                    }
                    i += 1;
                }
                assert(x =~= y);
                true
            },
            _ => false,
        }
    }

    /// The canonical form, whose serialization identifies the value.
    pub fn canonicalize(&self) -> (form: Json)
        ensures
            form@ == canonical(self@),
        decreases self,
    {
        proof {
            reveal_with_fuel(canonical, 2);
            reveal_with_fuel(<Json as View>::view, 2);
        }
        match self {
            Json::Null => Json::Null,
            Json::Bool(b) => Json::Bool(*b),
            Json::Number(n) => match n {
                Number::Float(bits) => if *bits == SIGN {
                    Json::Number(Number::Float(0))
                } else {
                    Json::Number(*n)
                },
                _ => Json::Number(*n),
            },
            Json::Text(s) => Json::Text(s.clone()),
            Json::Array(v) => {
                let mut out: Vec<Json> = Vec::new();
                let mut i: usize = 0;
                while i < v.len()
                    invariant
                        i <= v@.len(),
                        *self == Json::Array(*v),
                        out@.len() == i,
                        forall|j: int| 0 <= j < i ==> (#[trigger] out@[j])@ == canonical(v@[j]@),
                    decreases v@.len() - i,
                {
                    let item = &v[i];
                    assert(decreases_to!(self => self->Array_0));
                    assert(decreases_to!(v => v@[i as int]));
                    out.push(item.canonicalize());
                    i += 1;
                }
                let form = Json::Array(out);
                assert(form@->Array_0 =~= canonical(self@)->Array_0);
                form
            },
            Json::Object(v) => {
                let mut out: Vec<(String, Json)> = Vec::new();
                let mut i: usize = 0;
                while i < v.len()
                    invariant
                        i <= v@.len(),
                        *self == Json::Object(*v),
                        out@.len() == i,
                        forall|j: int|
                            0 <= j < i ==> (#[trigger] out@[j]).0@ == v@[j].0@ && out@[j].1@
                                == canonical(v@[j].1@),
                    decreases v@.len() - i,
                {
                    let member = &v[i];
                    assert(decreases_to!(self => self->Object_0));
                    assert(decreases_to!(v => v@[i as int].1));
                    out.push((member.0.clone(), member.1.canonicalize()));
                    i += 1;
                }
                let form = Json::Object(out);
                assert(form@->Object_0 =~= canonical(self@)->Object_0);
                form
            },
        }
    }

    /// The value as a double, for numbers.
    pub fn as_double(&self) -> (bits: Option<u64>)
        ensures
            bits == as_double_spec(self@),
            self@ matches JsonView::Number(n) ==> bits is Some,
            self@ matches JsonView::Number(n) ==> (number_valid(n) ==> finite_double(bits->0)),
    {
        match self {
            Json::Number(Number::PosInt(n)) => integer_as_double(*n as i128),
            Json::Number(Number::NegInt(n)) => integer_as_double(*n as i128),
            Json::Number(Number::Float(bits)) => Some(*bits),
            _ => None,
        }
    }

    /// The value as text, for strings.
    pub fn as_text(&self) -> (text: Option<&String>)
        ensures
            match text {
                Some(t) => as_text_spec(self@) == Some(t@),
                None => as_text_spec(self@) is None,
            },
    {
        match self {
            Json::Text(s) => Some(s),
            _ => None,
        }
    }
}

/// Law: bringing a value into canonical form twice is the same as once, and
/// the form equals the value.
pub proof fn law_canonical_form(value: JsonView)
    ensures
        canonical(canonical(value)) == canonical(value),
        json_equal(value, canonical(value)),
    decreases value,
{
    reveal_with_fuel(canonical, 2);
    match value {
        JsonView::Array(v) => {
            let once = canonical(value)->Array_0;
            let twice = canonical(canonical(value))->Array_0;
            assert forall|i: int| 0 <= i < v.len() implies once[i] == twice[i] by {
                law_canonical_form(v[i]);
            }
            assert(once =~= twice);
        },
        JsonView::Object(v) => {
            let once = canonical(value)->Object_0;
            let twice = canonical(canonical(value))->Object_0;
            assert forall|i: int| 0 <= i < v.len() implies once[i] == twice[i] by {
                law_canonical_form(v[i].1);
            }
            assert(once =~= twice);
        },
        _ => {},
    }
}

/// Equality tells apart what JSON tells apart. Values of different kinds differ,
/// an integer from a floating-point number too; truth values, texts and integers
/// are equal if they are the same; floating-point numbers if they are the same
/// number; arrays item by item and objects member by member.
pub proof fn law_json_equality(a: JsonView, b: JsonView)
    ensures
        json_equal(a, b) == match (a, b) {
            (JsonView::Null, JsonView::Null) => true,
            (JsonView::Bool(x), JsonView::Bool(y)) => x == y,
            (JsonView::Text(x), JsonView::Text(y)) => x == y,
            (
                JsonView::Number(Number::PosInt(x)),
                JsonView::Number(Number::PosInt(y)),
            ) => x == y,
            (
                JsonView::Number(Number::NegInt(x)),
                JsonView::Number(Number::NegInt(y)),
            ) => x == y,
            (JsonView::Number(Number::Float(x)), JsonView::Number(Number::Float(y))) => {
                double_value(x) == double_value(y)
            },
            (JsonView::Array(x), JsonView::Array(y)) => x.len() == y.len() && forall|i: int|
                0 <= i < x.len() ==> json_equal(#[trigger] x[i], y[i]),
            (JsonView::Object(x), JsonView::Object(y)) => x.len() == y.len() && forall|i: int|
                0 <= i < x.len() ==> (#[trigger] x[i]).0 == y[i].0 && json_equal(x[i].1, y[i].1),
            _ => false,
        },
{
    reveal_with_fuel(canonical, 2);
    match (a, b) {
        (JsonView::Number(Number::Float(x)), JsonView::Number(Number::Float(y))) => {
            law_doubles_compare_as_numbers(x, y);
        },
        (JsonView::Array(x), JsonView::Array(y)) => {
            let p = canonical(a)->Array_0;
            let q = canonical(b)->Array_0;
            if x.len() == y.len() && forall|i: int|
                0 <= i < x.len() ==> json_equal(#[trigger] x[i], y[i]) {
                assert(p =~= q);
            }
            assert(p.len() == x.len() && q.len() == y.len());
            if p == q {
                assert forall|i: int| 0 <= i < x.len() implies json_equal(
                    #[trigger] x[i],
                    y[i],
                ) by {
                    assert(p[i] == q[i]);
                }
            }
        },
        (JsonView::Object(x), JsonView::Object(y)) => {
            let p = canonical(a)->Object_0;
            let q = canonical(b)->Object_0;
            if x.len() == y.len() && forall|i: int|
                0 <= i < x.len() ==> (#[trigger] x[i]).0 == y[i].0 && json_equal(x[i].1, y[i].1) {
                assert(p =~= q);
            }
            assert(p.len() == x.len() && q.len() == y.len());
            if p == q {
                assert forall|i: int| 0 <= i < x.len() implies (#[trigger] x[i]).0 == y[i].0
                    && json_equal(x[i].1, y[i].1) by {
                    assert(p[i] == q[i]);
                }
            }
        },
        _ => {},
    }
}

/// No floating-point number occurs in the value.
pub open spec fn without_floats(value: JsonView) -> bool
    decreases value,
{
    match value {
        JsonView::Number(Number::Float(_)) => false,
        JsonView::Array(v) => forall|i: int| 0 <= i < v.len() ==> without_floats(#[trigger] v[i]),
        JsonView::Object(v) => forall|i: int|
            0 <= i < v.len() ==> without_floats((#[trigger] v[i]).1),
        _ => true,
    }
}

/// Values without floating-point numbers are equal only to themselves.
pub proof fn law_equal_means_same(a: JsonView, b: JsonView)
    requires
        without_floats(a),
        json_equal(a, b),
    ensures
        a == b,
    decreases a,
{
    law_json_equality(a, b);
    match (a, b) {
        (JsonView::Array(x), JsonView::Array(y)) => {
            assert forall|i: int| 0 <= i < x.len() implies x[i] == y[i] by {
                law_equal_means_same(x[i], y[i]);
            }
            assert(x =~= y);
        },
        (JsonView::Object(x), JsonView::Object(y)) => {
            assert forall|i: int| 0 <= i < x.len() implies x[i] == y[i] by {
                law_equal_means_same(x[i].1, y[i].1);
            }
            assert(x =~= y);
        },
        _ => {},
    }
}

/// Two values share a canonical form exactly if they are equal, and the form of a
/// value without floating-point numbers is the value itself.
pub proof fn law_canonical_form_identifies(a: JsonView, b: JsonView)
    ensures
        canonical(a) == canonical(b) <==> json_equal(a, b),
        without_floats(a) ==> canonical(a) == a,
    decreases a,
{
    law_canonical_form(a);
    if without_floats(a) {
        law_equal_means_same(a, canonical(a));
    }
}

/// A text reads as itself and nothing else reads as text; a floating-point number
/// reads as itself, an integer as the double that stands for it, and nothing
/// else reads as a number.
pub proof fn law_readings(value: JsonView)
    ensures
        forall|text: Seq<char>|
            as_text_spec(value) == Some(text) <==> value == JsonView::Text(text),
        !(value is Number) ==> as_double_spec(value) is None,
        value matches JsonView::Number(Number::Float(bits)) ==> as_double_spec(value) == Some(bits),
        value matches JsonView::Number(Number::PosInt(n)) ==> as_double_spec(value)
            == integer_double(n as int),
        value matches JsonView::Number(Number::NegInt(n)) ==> as_double_spec(value)
            == integer_double(n as int),
{
}

} // verus!
