//! What holds of canonical text whatever the value: the members of an object
//! come out sorted, each key once with the value that was given last, in a
//! way that does not depend on the order in which they were given; and the
//! elements of an array keep their order.

use crate::entry::{
    insert_member, lemma_insert_contents, lemma_insert_keeps_sorted, lemma_rank_is_position,
    strictly_sorted, MemberView,
};
use crate::escape::string_token;
use crate::key::{
    key_before, key_units, lemma_key_asymmetric, lemma_key_irreflexive, lemma_token_injective,
    lemma_token_order, lemma_token_units,
};
use crate::order::{units_before, utf16_units};
use crate::number::{double_category, FloatCategory};
use crate::value::{
    canonical, canonical_items, separator_text, sorted_members, written_member, Json, JsonEntry,
};
use vstd::prelude::*;

verus! {

/// The members of an object are written in strict key order, so no key is
/// written twice.
pub proof fn lemma_members_come_sorted(members: Seq<JsonEntry>, count: nat)
    ensures
        strictly_sorted(sorted_members(members, count)),
    decreases count,
{
    if 0 < count <= members.len() {
        lemma_members_come_sorted(members, (count - 1) as nat);
        lemma_insert_keeps_sorted(
            sorted_members(members, (count - 1) as nat),
            written_member(members[count - 1]),
        );
    }
}

/// Among the first `count` members, the one at `at` is the last with its key.
pub open spec fn last_with_its_key(members: Seq<JsonEntry>, count: nat, at: int) -> bool {
    &&& 0 <= at < count <= members.len()
    &&& forall|later: int| at < later < count ==> (#[trigger] members[later]).key != members[at].key
}

/// The members of an object as they are written are exactly the given
/// members that are the last with their key.
pub proof fn lemma_last_value_wins(members: Seq<JsonEntry>, count: nat)
    requires
        count <= members.len(),
    ensures
        forall|at: int| #[trigger]
            last_with_its_key(members, count, at) ==> sorted_members(members, count).contains(
                written_member(members[at]),
            ),
        forall|i: int|
            0 <= i < sorted_members(members, count).len() ==> exists|at: int|
                last_with_its_key(members, count, at) && #[trigger] sorted_members(
                    members,
                    count,
                )[i] == written_member(members[at]),
    decreases count,
{
    if count > 0 {
        let before = sorted_members(members, (count - 1) as nat);
        let after = sorted_members(members, count);
        let member = written_member(members[count - 1]);
        lemma_last_value_wins(members, (count - 1) as nat);
        lemma_members_come_sorted(members, (count - 1) as nat);
        lemma_insert_contents(before, member);
        assert forall|at: int| #[trigger]
            last_with_its_key(members, count, at) implies after.contains(
            written_member(members[at]),
        ) by {
            if at < count - 1 {
                assert(members[count - 1].key != members[at].key);
                if string_token(members[count - 1].key) == string_token(members[at].key) {
                    lemma_token_injective(members[count - 1].key, members[at].key);
                }
                assert(last_with_its_key(members, (count - 1) as nat, at));
                let x = written_member(members[at]);
                let i = choose|i: int| 0 <= i < before.len() && before[i] == x;
                assert(before[i].key != member.key);
            }
        }
        assert forall|i: int| 0 <= i < after.len() implies exists|at: int|
            last_with_its_key(members, count, at) && #[trigger] after[i] == written_member(
                members[at],
            ) by {
            let x = after[i];
            if x == member {
                assert(last_with_its_key(members, count, count - 1));
            } else {
                let j = choose|j: int| 0 <= j < before.len() && before[j] == x;
                let at = choose|at: int|
                    last_with_its_key(members, (count - 1) as nat, at) && before[j]
                        == written_member(members[at]);
                assert(last_with_its_key(members, count, at));
            }
        }
    }
}

/// Strictly sorted members are determined by which members they are.
pub proof fn lemma_sorted_is_unique(a: Seq<MemberView>, b: Seq<MemberView>)
    requires
        strictly_sorted(a),
        strictly_sorted(b),
        forall|i: int| 0 <= i < a.len() ==> b.contains(#[trigger] a[i]),
        forall|i: int| 0 <= i < b.len() ==> a.contains(#[trigger] b[i]),
    ensures
        a == b,
    decreases a.len(),
{
    if a.len() == 0 {
        if b.len() > 0 {
            assert(a.contains(b[0]));
        }
        assert(a =~= b);
    } else {
        let x = a.last();
        assert(b.contains(x));
        let y = b.last();
        assert(a.contains(y));
        let ib = choose|i: int| 0 <= i < b.len() && b[i] == x;
        let ia = choose|i: int| 0 <= i < a.len() && a[i] == y;
        if x.key != y.key {
            if ib < b.len() - 1 {
                assert(key_before(b[ib].key, b[b.len() - 1].key));
            }
            if ia < a.len() - 1 {
                assert(key_before(a[ia].key, a[a.len() - 1].key));
            }
            lemma_key_asymmetric(x.key, y.key);
        }
        lemma_key_irreflexive(x.key);
        if ib < b.len() - 1 {
            assert(key_before(b[ib].key, b[b.len() - 1].key));
        }
        assert(x == y);
        let a0 = a.drop_last();
        let b0 = b.drop_last();
        assert forall|i: int| 0 <= i < a0.len() implies b0.contains(#[trigger] a0[i]) by {
            assert(a0[i] == a[i]);
            assert(key_before(a[i].key, a[a.len() - 1].key));
            let k = choose|k: int| 0 <= k < b.len() && b[k] == a[i];
            assert(b0[k] == b[k]);
        }
        assert forall|i: int| 0 <= i < b0.len() implies a0.contains(#[trigger] b0[i]) by {
            assert(b0[i] == b[i]);
            assert(key_before(b[i].key, b[b.len() - 1].key));
            let k = choose|k: int| 0 <= k < a.len() && a[k] == b[i];
            assert(a0[k] == a[k]);
        }
        assert forall|i: int, j: int| 0 <= i < j < a0.len() implies key_before(
            #[trigger] a0[i].key,
            #[trigger] a0[j].key,
        ) by {
            assert(a0[i] == a[i] && a0[j] == a[j]);
        }
        assert forall|i: int, j: int| 0 <= i < j < b0.len() implies key_before(
            #[trigger] b0[i].key,
            #[trigger] b0[j].key,
        ) by {
            assert(b0[i] == b[i] && b0[j] == b[j]);
        }
        lemma_sorted_is_unique(a0, b0);
        assert(a =~= a0.push(x));
        assert(b =~= b0.push(y));
    }
}

/// The members of an object are written in the order of their keys' text:
/// the UTF-16 code units of the text that each written key stands for sort
/// strictly before those of every key behind it.
pub proof fn lemma_members_rise_by_text(members: Seq<JsonEntry>, count: nat)
    requires
        count <= members.len(),
    ensures
        forall|i: int, j: int|
            0 <= i < j < sorted_members(members, count).len() ==> units_before(
                key_units(#[trigger] sorted_members(members, count)[i].key),
                key_units(#[trigger] sorted_members(members, count)[j].key),
            ),
{
    let written = sorted_members(members, count);
    lemma_members_come_sorted(members, count);
    lemma_last_value_wins(members, count);
    assert forall|i: int, j: int| 0 <= i < j < written.len() implies units_before(
        key_units(#[trigger] written[i].key),
        key_units(#[trigger] written[j].key),
    ) by {
        let first = choose|at: int|
            last_with_its_key(members, count, at) && written[i] == written_member(members[at]);
        let second = choose|at: int|
            last_with_its_key(members, count, at) && written[j] == written_member(members[at]);
        assert(key_before(written[i].key, written[j].key));
        lemma_token_units(members[first].key);
        lemma_token_units(members[second].key);
        lemma_token_order(members[first].key, members[second].key);
    }
}

/// The member at `at` counts: no later member of the object has its key.
pub open spec fn counts(members: Seq<JsonEntry>, at: int) -> bool {
    last_with_its_key(members, members.len(), at)
}

/// The canonical text of an object does not depend on the order of its
/// members: two objects in which the same members count have the same text.
pub proof fn lemma_member_order_is_irrelevant(first: Seq<JsonEntry>, second: Seq<JsonEntry>)
    requires
        forall|at: int| #[trigger]
            counts(first, at) ==> exists|other: int|
                last_with_its_key(second, second.len(), other) && written_member(first[at])
                    == written_member(second[other]),
        forall|at: int| #[trigger]
            counts(second, at) ==> exists|other: int|
                last_with_its_key(first, first.len(), other) && written_member(second[at])
                    == written_member(first[other]),
    ensures
        canonical(Json::Object(first)) == canonical(Json::Object(second)),
{
    let a = sorted_members(first, first.len());
    let b = sorted_members(second, second.len());
    lemma_members_come_sorted(first, first.len());
    lemma_members_come_sorted(second, second.len());
    lemma_last_value_wins(first, first.len());
    lemma_last_value_wins(second, second.len());
    assert forall|i: int| 0 <= i < a.len() implies b.contains(#[trigger] a[i]) by {
        let at = choose|at: int|
            last_with_its_key(first, first.len(), at) && a[i] == written_member(first[at]);
        assert(counts(first, at));
        let other = choose|other: int|
            last_with_its_key(second, second.len(), other) && written_member(first[at])
                == written_member(second[other]);
        assert(b.contains(written_member(second[other])));
    }
    assert forall|i: int| 0 <= i < b.len() implies a.contains(#[trigger] b[i]) by {
        let at = choose|at: int|
            last_with_its_key(second, second.len(), at) && b[i] == written_member(second[at]);
        assert(counts(second, at));
        let other = choose|other: int|
            last_with_its_key(first, first.len(), other) && written_member(second[at])
                == written_member(first[other]);
        assert(a.contains(written_member(first[other])));
    }
    lemma_sorted_is_unique(a, b);
}

/// The keys of the members are given in strictly rising code-unit order.
pub open spec fn keys_rise(members: Seq<JsonEntry>) -> bool {
    forall|i: int, j: int|
        0 <= i < j < members.len() ==> units_before(
            utf16_units(#[trigger] members[i].key),
            utf16_units(#[trigger] members[j].key),
        )
}

/// Members that are given in canonical order are written in the order given:
/// encoding what is already sorted changes no order.
pub proof fn lemma_sorted_members_stay(members: Seq<JsonEntry>, count: nat)
    requires
        keys_rise(members),
        count <= members.len(),
    ensures
        sorted_members(members, count) == Seq::new(count, |i: int| written_member(members[i])),
    decreases count,
{
    let given = Seq::new(count, |i: int| written_member(members[i]));
    if count > 0 {
        let before = sorted_members(members, (count - 1) as nat);
        let member = written_member(members[count - 1]);
        lemma_sorted_members_stay(members, (count - 1) as nat);
        lemma_members_come_sorted(members, (count - 1) as nat);
        assert forall|j: int| 0 <= j < before.len() implies key_before(
            #[trigger] before[j].key,
            member.key,
        ) by {
            assert(before[j] == written_member(members[j]));
            lemma_token_order(members[j].key, members[count - 1].key);
        }
        lemma_rank_is_position(before, member.key, before.len() as int);
        assert(sorted_members(members, count) =~= given);
    } else {
        assert(sorted_members(members, count) =~= given);
    }
}

/// The text of the first elements of an array does not depend on what comes
/// behind them.
pub proof fn lemma_items_prefix(items: Seq<Json>, more: Seq<Json>, count: nat)
    requires
        count <= items.len(),
    ensures
        canonical_items(items + more, count) == canonical_items(items, count),
    decreases count,
{
    if count > 0 {
        lemma_items_prefix(items, more, (count - 1) as nat);
        assert((items + more)[count - 1] == items[count - 1]);
    }
}

/// Arrays keep their order: the text of an array with one more element is
/// the text of the array it continues, then the separator and the text of the
/// new element.
pub proof fn lemma_array_order_kept(items: Seq<Json>, item: Json)
    ensures
        canonical_items(items.push(item), items.len() + 1) == canonical_items(items, items.len())
            + separator_text(items.len() == 0) + canonical(item),
{
    assert(items.push(item) =~= items + seq![item]);
    lemma_items_prefix(items, seq![item], items.len());
}

/// Two values mean the same: equal scalars, where a zero of either sign is a
/// zero; arrays with the same elements in the same order; objects in which
/// the same keys count, with values that mean the same, in whatever order the
/// members stand.
pub open spec fn same_value(a: Json, b: Json) -> bool
    decreases a,
{
    match a {
        Json::Float { bits, text } => a == b || (b matches Json::Float { bits: other, .. }
            && double_category(bits) == FloatCategory::Zero && double_category(other)
            == FloatCategory::Zero),
        Json::Array(items) => b matches Json::Array(others) && items.len() == others.len()
            && forall|i: int|
            #![trigger items[i]]
            0 <= i < items.len() ==> same_value(items[i], others[i]),
        Json::Object(members) => b matches Json::Object(others) && (forall|at: int| #[trigger]
            counts(members, at) ==> exists|other: int|
                last_with_its_key(others, others.len(), other) && members[at].key
                    == others[other].key && same_value(members[at].value, others[other].value))
            && (forall|other: int| #[trigger]
            counts(others, other) ==> exists|at: int|
                last_with_its_key(members, members.len(), at) && members[at].key
                    == others[other].key && same_value(members[at].value, others[other].value)),
        _ => a == b,
    }
}

/// Values that mean the same have the same canonical text, whatever the
/// order of their members and the sign of their zeros. So the canonical text
/// of a value that was read back from canonical text is that text again,
/// where reading gives a value that means the same.
pub proof fn lemma_same_value_same_text(a: Json, b: Json)
    requires
        same_value(a, b),
    ensures
        canonical(a) == canonical(b),
    decreases a,
{
    match a {
        Json::Array(items) => {
            let others = b->Array_0;
            lemma_same_items_same_text(items, others, items.len());
        },
        Json::Object(members) => {
            let others = b->Object_0;
            assert forall|at: int| #[trigger] counts(members, at) implies exists|other: int|
                last_with_its_key(others, others.len(), other) && written_member(members[at])
                    == written_member(others[other]) by {
                let other = choose|other: int|
                    last_with_its_key(others, others.len(), other) && members[at].key
                        == others[other].key && same_value(
                        members[at].value,
                        others[other].value,
                    );
                lemma_same_value_same_text(members[at].value, others[other].value);
            }
            assert forall|other: int| #[trigger] counts(others, other) implies exists|at: int|
                last_with_its_key(members, members.len(), at) && written_member(others[other])
                    == written_member(members[at]) by {
                let at = choose|at: int|
                    last_with_its_key(members, members.len(), at) && members[at].key
                        == others[other].key && same_value(
                        members[at].value,
                        others[other].value,
                    );
                lemma_same_value_same_text(members[at].value, others[other].value);
            }
            lemma_member_order_is_irrelevant(members, others);
        },
        _ => {},
    }
}

/// Arrays whose elements mean the same, one by one, have the same text.
proof fn lemma_same_items_same_text(items: Seq<Json>, others: Seq<Json>, count: nat)
    requires
        items.len() == others.len(),
        forall|i: int| #![trigger items[i]] 0 <= i < items.len() ==> same_value(items[i], others[i]),
    ensures
        canonical_items(items, count) == canonical_items(others, count),
    decreases items, count,
{
    if 0 < count <= items.len() {
        lemma_same_items_same_text(items, others, (count - 1) as nat);
        assert(same_value(items[count - 1], others[count - 1]));
        lemma_same_value_same_text(items[count - 1], others[count - 1]);
    }
}

} // verus!
