//! The members of an object: kept in ascending order of their keys, each
//! key once.
use vstd::prelude::*;
use vstd::std_specs::iter::IteratorSpec;
use crate::ast::{members_view, Json, JsonValue};

verus! {

/// The order of keys: character by character, by code; a proper prefix
/// comes before what it is a prefix of.
pub open spec fn key_lt(a: Seq<char>, b: Seq<char>) -> bool
    decreases a.len(),
{
    if b.len() == 0 {
        false
    } else if a.len() == 0 {
        true
    } else if a[0] != b[0] {
        a[0] < b[0]
    } else {
        key_lt(a.drop_first(), b.drop_first())
    }
}

/// No key comes before itself.
pub proof fn lemma_key_lt_irreflexive(a: Seq<char>)
    ensures
        !key_lt(a, a),
    decreases a.len(),
{
    if a.len() > 0 {
        lemma_key_lt_irreflexive(a.drop_first());
    }
}

/// The order of keys is transitive.
pub proof fn lemma_key_lt_transitive(a: Seq<char>, b: Seq<char>, c: Seq<char>)
    requires
        key_lt(a, b),
        key_lt(b, c),
    ensures
        key_lt(a, c),
    decreases a.len(),
{
    if a.len() > 0 && a[0] == b[0] && b[0] == c[0] {
        lemma_key_lt_transitive(a.drop_first(), b.drop_first(), c.drop_first());
    }
}

/// Of two different keys one comes before the other.
pub proof fn lemma_key_lt_total(a: Seq<char>, b: Seq<char>)
    ensures
        a == b || key_lt(a, b) || key_lt(b, a),
    decreases a.len(),
{
    if a.len() > 0 && b.len() > 0 && a[0] == b[0] {
        lemma_key_lt_total(a.drop_first(), b.drop_first());
        if a.drop_first() == b.drop_first() {
            assert(a =~= seq![a[0]] + a.drop_first());
            assert(b =~= seq![b[0]] + b.drop_first());
        }
    } else if a.len() == 0 && b.len() == 0 {
        assert(a =~= b);
    }
}

/// Tells whether the key `a` comes before the key `b`.
pub fn key_before(a: &str, b: &str) -> (r: bool)
    ensures
        r == key_lt(a@, b@),
{
    let mut xs = a.chars();
    let mut ys = b.chars();
    loop
        invariant
            xs.decrease() is Some,
            ys.decrease() is Some,
            key_lt(a@, b@) == key_lt(xs.remaining(), ys.remaining()),
        decreases ys.decrease()->0,
    {
        match ys.next() {
            None => {
                return false;
            },
            Some(y) => match xs.next() {
                None => {
                    return true;
                },
                Some(x) => {
                    if x != y {
                        return x < y;
                    }
                },
            },
        }
    }
}

/// Tells whether two keys are the same.
pub fn key_same(a: &str, b: &str) -> (r: bool)
    ensures
        r == (a@ == b@),
{
    proof {
        lemma_key_lt_total(a@, b@);
        lemma_key_lt_irreflexive(a@);
    }
    !key_before(a, b) && !key_before(b, a)
}

/// The keys ascend strictly, so none occurs twice.
pub open spec fn keys_ascend(members: Seq<(Seq<char>, JsonValue)>) -> bool {
    forall|i: int, j: int|
        0 <= i < j < members.len() ==> key_lt(#[trigger] members[i].0, #[trigger] members[j].0)
}

/// How many members have a key before `key`.
pub open spec fn rank(members: Seq<(Seq<char>, JsonValue)>, key: Seq<char>) -> int
    decreases members.len(),
{
    if members.len() == 0 {
        0
    } else {
        rank(members.drop_last(), key) + if key_lt(members.last().0, key) {
            1int
        } else {
            0int
        }
    }
}

/// The members with `key` bound to `value`: in the place of the member that
/// had the key, or else where the order of keys wants it.
pub open spec fn put(members: Seq<(Seq<char>, JsonValue)>, key: Seq<char>, value: JsonValue) -> Seq<
    (Seq<char>, JsonValue),
> {
    let at = rank(members, key);
    if at < members.len() && members[at].0 == key {
        members.update(at, (key, value))
    } else {
        members.insert(at, (key, value))
    }
}

/// The value of the first member that has the key `key`.
pub open spec fn find(members: Seq<(Seq<char>, JsonValue)>, key: Seq<char>) -> Option<JsonValue>
    decreases members.len(),
{
    if members.len() == 0 {
        None
    } else if members[0].0 == key {
        Some(members[0].1)
    } else {
        find(members.drop_first(), key)
    }
}

/// The rank of a key lies between nothing and the number of members.
pub proof fn lemma_rank_bounds(members: Seq<(Seq<char>, JsonValue)>, key: Seq<char>)
    ensures
        0 <= rank(members, key) <= members.len(),
    decreases members.len(),
{
    if members.len() > 0 {
        lemma_rank_bounds(members.drop_last(), key);
    }
}

/// Where the keys ascend, `at` is the rank of `key` if the keys before `at`
/// come before `key` and the others do not.
pub proof fn lemma_rank_is(members: Seq<(Seq<char>, JsonValue)>, key: Seq<char>, at: int)
    requires
        0 <= at <= members.len(),
        forall|i: int| 0 <= i < at ==> key_lt(#[trigger] members[i].0, key),
        forall|i: int| at <= i < members.len() ==> !key_lt(#[trigger] members[i].0, key),
    ensures
        rank(members, key) == at,
    decreases members.len(),
{
    if members.len() > 0 {
        let front = members.drop_last();
        if at == members.len() {
            lemma_rank_is(front, key, at - 1);
        } else {
            lemma_rank_is(front, key, at);
        }
    }
}

/// Where the keys ascend, the rank of `key` parts the members whose keys
/// come before `key` from the others.
pub proof fn lemma_rank_parts(members: Seq<(Seq<char>, JsonValue)>, key: Seq<char>)
    requires
        keys_ascend(members),
    ensures
        0 <= rank(members, key) <= members.len(),
        forall|i: int| 0 <= i < rank(members, key) ==> key_lt(#[trigger] members[i].0, key),
        forall|i: int|
            rank(members, key) <= i < members.len() ==> !key_lt(#[trigger] members[i].0, key),
    decreases members.len(),
{
    if members.len() > 0 {
        let front = members.drop_last();
        let last = members.last();
        assert(keys_ascend(front)) by {
            assert forall|i: int, j: int| 0 <= i < j < front.len() implies key_lt(
                #[trigger] front[i].0,
                #[trigger] front[j].0,
            ) by {
                assert(key_lt(members[i].0, members[j].0));
            }
        }
        lemma_rank_parts(front, key);
        if key_lt(last.0, key) {
            assert forall|i: int| 0 <= i < front.len() implies key_lt(
                #[trigger] front[i].0,
                key,
            ) by {
                assert(key_lt(members[i].0, members[members.len() - 1].0));
                lemma_key_lt_transitive(front[i].0, last.0, key);
            }
            assert(rank(front, key) == front.len()) by {
                if rank(front, key) < front.len() {
                    assert(!key_lt(front[rank(front, key)].0, key));
                }
            }
        }
        assert forall|i: int| 0 <= i < rank(members, key) implies key_lt(
            #[trigger] members[i].0,
            key,
        ) by {
            if i < front.len() {
                assert(key_lt(front[i].0, key));
            }
        }
        assert forall|i: int| rank(members, key) <= i < members.len() implies !key_lt(
            #[trigger] members[i].0,
            key,
        ) by {
            if i < front.len() {
                assert(!key_lt(front[i].0, key));
            }
        }
    }
}

/// Putting a member into ascending members leaves them ascending.
pub proof fn lemma_put_ascends(
    members: Seq<(Seq<char>, JsonValue)>,
    key: Seq<char>,
    value: JsonValue,
)
    requires
        keys_ascend(members),
    ensures
        keys_ascend(put(members, key, value)),
{
    let at = rank(members, key);
    let after = put(members, key, value);
    lemma_rank_parts(members, key);
    if at < members.len() && members[at].0 == key {
        assert forall|i: int, j: int| 0 <= i < j < after.len() implies key_lt(
            #[trigger] after[i].0,
            #[trigger] after[j].0,
        ) by {
            assert(key_lt(members[i].0, members[j].0));
        }
    } else {
        assert forall|i: int, j: int| 0 <= i < j < after.len() implies key_lt(
            #[trigger] after[i].0,
            #[trigger] after[j].0,
        ) by {
            if j < at {
                assert(key_lt(members[i].0, members[j].0));
            } else if j == at {
                assert(key_lt(members[i].0, key));
            } else if i == at {
                // the member at `at` does not come before `key` and has another key
                assert(!key_lt(members[at].0, key));
                lemma_key_lt_total(key, members[at].0);
                if j - 1 > at {
                    assert(key_lt(members[at].0, members[j - 1].0));
                    lemma_key_lt_transitive(key, members[at].0, members[j - 1].0);
                }
            } else if i < at {
                assert(key_lt(members[i].0, members[j - 1].0));
            } else {
                assert(key_lt(members[i - 1].0, members[j - 1].0));
            }
        }
    }
}

/// What holds of all values and of `value` holds of all values after
/// `value` was put among them.
pub proof fn lemma_put_keeps(
    members: Seq<(Seq<char>, JsonValue)>,
    key: Seq<char>,
    value: JsonValue,
    holds: spec_fn(JsonValue) -> bool,
)
    requires
        forall|x: int| 0 <= x < members.len() ==> holds((#[trigger] members[x]).1),
        holds(value),
    ensures
        forall|x: int|
            0 <= x < put(members, key, value).len() ==> holds(
                (#[trigger] put(members, key, value)[x]).1,
            ),
{
    let at = rank(members, key);
    let after = put(members, key, value);
    lemma_rank_bounds(members, key);
    assert forall|x: int| 0 <= x < after.len() implies holds((#[trigger] after[x]).1) by {
        if at < members.len() && members[at].0 == key {
            if x != at {
                assert(holds(members[x].1));
            }
        } else {
            if x < at {
                assert(holds(members[x].1));
            } else if x > at {
                assert(holds(members[x - 1].1));
            }
        }
    }
}

/// Binds `key` to `value` in ascending members: in the place of the member
/// that had the key, or else where the order of keys wants it.
pub fn insert_member(members: &mut Vec<(String, Json)>, key: String, value: Json)
    requires
        keys_ascend(members_view(old(members)@)),
    ensures
        members_view(final(members)@) == put(members_view(old(members)@), key@, value@),
        keys_ascend(members_view(final(members)@)),
{
    let ghost before = members_view(members@);
    let mut low: usize = 0;
    let mut high: usize = members.len();
    while low < high
        invariant
            *members == *old(members),
            before == members_view(members@),
            keys_ascend(before),
            0 <= low <= high <= members.len(),
            forall|i: int| 0 <= i < low ==> key_lt(#[trigger] before[i].0, key@),
            forall|i: int| high <= i < before.len() ==> !key_lt(#[trigger] before[i].0, key@),
        decreases high - low,
    {
        let middle = low + (high - low) / 2;
        if key_before(members[middle].0.as_str(), key.as_str()) {
            assert forall|i: int| 0 <= i < middle + 1 implies key_lt(
                #[trigger] before[i].0,
                key@,
            ) by {
                if i < middle {
                    assert(key_lt(before[i].0, before[middle as int].0));
                    lemma_key_lt_transitive(before[i].0, before[middle as int].0, key@);
                }
            }
            low = middle + 1;
        } else {
            assert forall|i: int| middle <= i < before.len() implies !key_lt(
                #[trigger] before[i].0,
                key@,
            ) by {
                if i > middle && key_lt(before[i].0, key@) {
                    assert(key_lt(before[middle as int].0, before[i].0));
                    lemma_key_lt_transitive(before[middle as int].0, before[i].0, key@);
                }
            }
            high = middle;
        }
    }
    proof {
        lemma_rank_is(before, key@, low as int);
        lemma_put_ascends(before, key@, value@);
    }
    if low < members.len() && members[low].0 == key {
        members.set(low, (key, value));
        assert(members_view(members@) =~= put(before, key@, value@));
    } else {
        members.insert(low, (key, value));
        assert(members_view(members@) =~= put(before, key@, value@));
    }
}

/// What is found is the value of a member with that key, and nothing is
/// found only where no member has the key.
pub proof fn lemma_find(members: Seq<(Seq<char>, JsonValue)>, key: Seq<char>)
    ensures
        match find(members, key) {
            Some(value) => exists|x: int|
                0 <= x < members.len() && #[trigger] members[x] == (key, value),
            None => forall|x: int| 0 <= x < members.len() ==> (#[trigger] members[x]).0 != key,
        },
    decreases members.len(),
{
    if members.len() > 0 {
        let rest = members.drop_first();
        if members[0].0 == key {
            assert(members[0] == (key, members[0].1));
        } else {
            lemma_find(rest, key);
            match find(rest, key) {
                Some(value) => {
                    let x = choose|x: int|
                        0 <= x < rest.len() && #[trigger] rest[x] == (key, value);
                    assert(members[x + 1] == (key, value));
                },
                None => {
                    assert forall|x: int| 0 <= x < members.len() implies (#[trigger] members[x]).0
                        != key by {
                        if x > 0 {
                            assert(rest[x - 1].0 != key);
                        }
                    }
                },
            }
        }
    }
}

/// Where the keys ascend, a member is found by its key.
pub proof fn lemma_find_member(members: Seq<(Seq<char>, JsonValue)>, at: int)
    requires
        keys_ascend(members),
        0 <= at < members.len(),
    ensures
        find(members, members[at].0) == Some(members[at].1),
{
    let key = members[at].0;
    lemma_find(members, key);
    match find(members, key) {
        Some(value) => {
            let x = choose|x: int| 0 <= x < members.len() && #[trigger] members[x] == (key, value);
            lemma_key_lt_irreflexive(key);
            if x < at {
                assert(key_lt(members[x].0, members[at].0));
            } else if at < x {
                assert(key_lt(members[at].0, members[x].0));
            }
        },
        None => {
            assert(members[at].0 == key);
        },
    }
}

/// After `key` was bound to `value`, that value is found under `key`, and
/// under any other key what was found there before.
pub proof fn lemma_find_put(
    members: Seq<(Seq<char>, JsonValue)>,
    key: Seq<char>,
    value: JsonValue,
    other: Seq<char>,
)
    requires
        keys_ascend(members),
    ensures
        find(put(members, key, value), other) == if other == key {
            Some(value)
        } else {
            find(members, other)
        },
{
    let at = rank(members, key);
    let after = put(members, key, value);
    let replaces = at < members.len() && members[at].0 == key;
    lemma_rank_parts(members, key);
    lemma_put_ascends(members, key, value);
    assert(after[at] == (key, value));
    if other == key {
        lemma_find_member(after, at);
    } else {
        lemma_find(members, other);
        lemma_find(after, other);
        match find(members, other) {
            Some(found) => {
                let x = choose|x: int|
                    0 <= x < members.len() && #[trigger] members[x] == (other, found);
                let y = if replaces || x < at {
                    x
                } else {
                    x + 1
                };
                assert(after[y] == (other, found));
                lemma_find_member(after, y);
            },
            None => {
                if let Some(found) = find(after, other) {
                    let y = choose|y: int|
                        0 <= y < after.len() && #[trigger] after[y] == (other, found);
                    let x = if replaces || y < at {
                        y
                    } else {
                        y - 1
                    };
                    assert(members[x].0 == other);
                }
            },
        }
    }
}

/// The member that has the key `key`, if there is one.
pub fn find_member<'a>(members: &'a Vec<(String, Json)>, key: &str) -> (r: Option<&'a Json>)
    ensures
        match r {
            Some(value) => find(members_view(members@), key@) == Some(value@),
            None => find(members_view(members@), key@) is None,
        },
{
    let mut index: usize = 0;
    assert(members_view(members@).skip(0) =~= members_view(members@));
    while index < members.len()
        invariant
            index <= members.len(),
            find(members_view(members@), key@) == find(
                members_view(members@).skip(index as int),
                key@,
            ),
        decreases members.len() - index,
    {
        let ghost rest = members_view(members@).skip(index as int);
        if key_same(members[index].0.as_str(), key) {
            return Some(&members[index].1);
        }
        index = index + 1;
        assert(rest.drop_first() =~= members_view(members@).skip(index as int));
    }
    None
}

} // verus!
