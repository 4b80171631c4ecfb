//! Values from the data of a program.
use vstd::prelude::*;
use vstd::string::StringExecFns;
use crate::ast::{items_view, lemma_view_of_containers, members_view, Json, JsonValue};
use crate::grammar::{
    digits_end, exponent_end, fraction_end, integer_end, is_digit, is_number_literal, Failure,
};
use crate::object::{insert_member, keys_ascend, lemma_put_ascends, lemma_put_keeps, put};
use crate::text::{decimal, digit_char, push_decimal};

verus! {

/// What can be turned into a JSON value.
pub trait ToJson {
    /// The value that `to_json` gives.
    spec fn json(&self) -> JsonValue;

    /// The JSON value for this datum.
    fn to_json(&self) -> (r: Json)
        ensures
            r@ == self.json(),
    ;
}

impl ToJson for bool {
    open spec fn json(&self) -> JsonValue {
        JsonValue::Boolean(*self)
    }

    fn to_json(&self) -> (r: Json) {
        Json::Boolean(*self)
    }
}

impl ToJson for String {
    open spec fn json(&self) -> JsonValue {
        JsonValue::String(self@)
    }

    fn to_json(&self) -> (r: Json) {
        Json::String(self.clone())
    }
}

impl ToJson for str {
    open spec fn json(&self) -> JsonValue {
        JsonValue::String(self@)
    }

    fn to_json(&self) -> (r: Json) {
        Json::String(String::from_str(self))
    }
}

/// The literal of a whole number: its decimal digits, behind a minus sign
/// where it is negative.
pub open spec fn integer_literal(n: int) -> Seq<char> {
    if n < 0 {
        seq!['-'] + decimal((-n) as nat)
    } else {
        decimal(n as nat)
    }
}

/// The decimal digits of a number are digits, at least one, and start with
/// `0` only for a number below ten.
pub proof fn lemma_decimal_shape(n: nat)
    ensures
        decimal(n).len() > 0,
        forall|k: int| 0 <= k < decimal(n).len() ==> is_digit(#[trigger] decimal(n)[k]),
        n < 10 ==> decimal(n).len() == 1,
        n >= 10 ==> decimal(n)[0] != '0',
        n != 0 ==> decimal(n)[0] != '0',
    decreases n,
{
    if n >= 10 {
        lemma_decimal_shape(n / 10);
        let front = decimal(n / 10);
        let last = digit_char((n % 10) as int);
        assert forall|k: int| 0 <= k < decimal(n).len() implies is_digit(
            #[trigger] decimal(n)[k],
        ) by {
            if k < front.len() {
                assert(decimal(n)[k] == front[k]);
            }
        }
        assert(decimal(n)[0] == front[0]);
    }
}

/// Digits that go on to the end of a text end there.
pub proof fn lemma_digits_to_the_end(s: Seq<char>, i: int)
    requires
        0 <= i <= s.len(),
        forall|k: int| i <= k < s.len() ==> is_digit(#[trigger] s[k]),
    ensures
        digits_end(s, i) == s.len(),
    decreases s.len() - i,
{
    if i < s.len() {
        lemma_digits_to_the_end(s, i + 1);
    }
}

/// The literal of a whole number is a number literal.
pub proof fn lemma_integer_literal(n: int)
    ensures
        is_number_literal(integer_literal(n)),
{
    let magnitude = if n < 0 {
        (-n) as nat
    } else {
        n as nat
    };
    let digits = decimal(magnitude);
    let literal = integer_literal(n);
    let start = if n < 0 {
        1int
    } else {
        0int
    };
    let end = literal.len() as int;
    lemma_decimal_shape(magnitude);
    assert(is_digit(digits[0]));
    assert forall|k: int| start <= k < end implies is_digit(#[trigger] literal[k]) by {
        assert(literal[k] == digits[k - start]);
    }
    assert(literal[start] == digits[0]);
    lemma_digits_to_the_end(literal, start + 1);
    assert(integer_end(literal, start) == Ok::<int, Failure>(end));
    assert(fraction_end(literal, end) == Ok::<int, Failure>(end));
    assert(exponent_end(literal, end) == Ok::<int, Failure>(end));
}

impl ToJson for i32 {
    open spec fn json(&self) -> JsonValue {
        JsonValue::Number(integer_literal(*self as int))
    }

    fn to_json(&self) -> (r: Json) {
        let mut literal = String::new();
        if *self < 0 {
            literal.push('-');
            let magnitude: u32 = (-(*self as i64)) as u32;
            push_decimal(&mut literal, magnitude as usize);
        } else {
            push_decimal(&mut literal, *self as usize);
        }
        assert(literal@ =~= integer_literal(*self as int));
        Json::Number(literal)
    }
}

impl<T: ToJson> ToJson for Option<T> {
    open spec fn json(&self) -> JsonValue {
        match self {
            None => JsonValue::Null,
            Some(t) => t.json(),
        }
    }

    fn to_json(&self) -> (r: Json) {
        match self {
            None => Json::Null,
            Some(t) => t.to_json(),
        }
    }
}

/// The values of a sequence of data.
pub open spec fn items_json<T: ToJson>(data: Seq<T>) -> Seq<JsonValue> {
    Seq::new(data.len(), |i: int| data[i].json())
}

impl<T: ToJson> ToJson for [T] {
    open spec fn json(&self) -> JsonValue {
        JsonValue::Array(items_json(self@))
    }

    fn to_json(&self) -> (r: Json) {
        let mut items: Vec<Json> = Vec::new();
        let mut index: usize = 0;
        while index < self.len()
            invariant
                index <= self.len(),
                items.len() == index,
                items_view(items@) == items_json(self@).take(index as int),
            decreases self.len() - index,
        {
            items.push(self[index].to_json());
            index = index + 1;
            assert(items_view(items@) =~= items_json(self@).take(index as int));
        }
        assert(items_view(items@) =~= items_json(self@));
        let r = Json::Array(items);
        proof {
            lemma_view_of_containers(r);
        }
        r
    }
}

impl<T: ToJson> ToJson for Vec<T> {
    open spec fn json(&self) -> JsonValue {
        JsonValue::Array(items_json(self@))
    }

    fn to_json(&self) -> (r: Json) {
        self.as_slice().to_json()
    }
}

/// The members that a sequence of keys with data gives: each key bound to
/// the value of its datum, a later one in the place of an earlier one with
/// the same key.
pub open spec fn members_json<T: ToJson>(data: Seq<(&str, T)>) -> Seq<(Seq<char>, JsonValue)>
    decreases data.len(),
{
    if data.len() == 0 {
        Seq::empty()
    } else {
        put(members_json(data.drop_last()), data.last().0@, data.last().1.json())
    }
}

/// The members that keys with data give have ascending keys; their values
/// are ones that a text can denote where the values of the data are.
pub proof fn lemma_members_json_wf<T: ToJson>(data: Seq<(&str, T)>)
    requires
        forall|i: int| 0 <= i < data.len() ==> (#[trigger] data[i]).1.json().wf(),
    ensures
        JsonValue::Object(members_json(data)).wf(),
    decreases data.len(),
{
    if data.len() > 0 {
        let front = data.drop_last();
        assert forall|i: int| 0 <= i < front.len() implies (#[trigger] front[i]).1.json().wf() by {
            assert(data[i].1.json().wf());
        }
        lemma_members_json_wf(front);
        assert(data[data.len() - 1].1.json().wf());
        lemma_put_ascends(members_json(front), data.last().0@, data.last().1.json());
        lemma_put_keeps(
            members_json(front),
            data.last().0@,
            data.last().1.json(),
            |v: JsonValue| v.wf(),
        );
    }
}

impl<T: ToJson> ToJson for [(&str, T)] {
    open spec fn json(&self) -> JsonValue {
        JsonValue::Object(members_json(self@))
    }

    fn to_json(&self) -> (r: Json) {
        let mut members: Vec<(String, Json)> = Vec::new();
        let mut index: usize = 0;
        assert(members_view(members@) =~= members_json(self@.take(0)));
        while index < self.len()
            invariant
                index <= self.len(),
                keys_ascend(members_view(members@)),
                members_view(members@) == members_json(self@.take(index as int)),
            decreases self.len() - index,
        {
            let key = String::from_str(self[index].0);
            let value = self[index].1.to_json();
            insert_member(&mut members, key, value);
            index = index + 1;
            assert(self@.take(index as int).drop_last() =~= self@.take(index - 1));
        }
        assert(self@.take(index as int) =~= self@);
        let r = Json::Object(members);
        proof {
            lemma_view_of_containers(r);
        }
        r
    }
}

impl ToJson for Json {
    open spec fn json(&self) -> JsonValue {
        self@
    }

    fn to_json(&self) -> (r: Json) {
        self.clone()
    }
}

impl<T: ToJson + ?Sized> ToJson for &T {
    open spec fn json(&self) -> JsonValue {
        (**self).json()
    }

    fn to_json(&self) -> (r: Json) {
        (**self).to_json()
    }
}

} // verus!
