//! The canonical form of a value: the value with the members of every object
//! in key order, each key once, and every zero written alike. It has the text
//! of the value it comes from, and it is its own canonical form.

use crate::entry::{lemma_rank_bounds, lemma_rank_is_position, rank};
use crate::laws::{keys_rise, lemma_members_come_sorted, lemma_sorted_members_stay};
use crate::number::{double_category, FloatCategory};
use crate::escape::string_token;
use crate::key::{key_before, lemma_token_order};
use crate::order::{units_before, utf16_units};
use crate::value::{canonical, canonical_items, sorted_members, written_member, Json, JsonEntry};
use vstd::prelude::*;

verus! {

/// The double zero as it stands in a canonical form.
pub open spec fn plain_zero() -> Json {
    Json::Float { bits: 0, text: seq!['0'] }
}

/// The canonical form of a value.
pub open spec fn canonical_form(json: Json) -> Json
    decreases json, 0nat,
{
    match json {
        Json::Float { bits, text } => if double_category(bits) == FloatCategory::Zero {
            plain_zero()
        } else {
            json
        },
        Json::Array(items) => Json::Array(
            Seq::new(
                items.len(),
                |i: int|
                    if 0 <= i < items.len() {
                        canonical_form(items[i])
                    } else {
                        Json::Null
                    },
            ),
        ),
        Json::Object(members) => Json::Object(sorted_entries(members, members.len())),
        _ => json,
    }
}

/// A member with its value in canonical form.
pub open spec fn canonical_entry(entry: JsonEntry) -> JsonEntry
    decreases entry, 0nat,
{
    JsonEntry { key: entry.key, value: canonical_form(entry.value) }
}

/// The first `count` members of an object in canonical form: in key order,
/// each key once with the value that was given last, that value in canonical
/// form. Each member stands where it stands among the written members.
pub open spec fn sorted_entries(members: Seq<JsonEntry>, count: nat) -> Seq<JsonEntry>
    decreases members, count,
{
    if 0 < count <= members.len() {
        let before = sorted_entries(members, (count - 1) as nat);
        let written = sorted_members(members, (count - 1) as nat);
        let entry = canonical_entry(members[count - 1]);
        let key = string_token(entry.key);
        let at = rank(written, key);
        if at < written.len() && written[at].key == key {
            before.update(at, entry)
        } else {
            before.insert(at, entry)
        }
    } else {
        Seq::empty()
    }
}

/// The canonical form of a value has the text of the value.
pub proof fn lemma_canonical_form_keeps_text(json: Json)
    ensures
        canonical(canonical_form(json)) == canonical(json),
    decreases json, 0nat, 0nat,
{
    match json {
        Json::Array(items) => {
            let forms = canonical_form(json)->Array_0;
            lemma_forms_keep_text(items, forms, items.len());
        },
        Json::Object(members) => {
            let entries = sorted_entries(members, members.len());
            lemma_entries_match_members(members, members.len());
            lemma_entries_rise(members, members.len());
            lemma_sorted_members_stay(entries, entries.len());
            assert(sorted_members(entries, entries.len()) =~= sorted_members(
                members,
                members.len(),
            ));
        },
        _ => {},
    }
}

/// The elements of an array in canonical form have the text of the elements.
proof fn lemma_forms_keep_text(items: Seq<Json>, forms: Seq<Json>, count: nat)
    requires
        forms.len() == items.len(),
        forall|i: int| 0 <= i < items.len() ==> #[trigger] forms[i] == canonical_form(items[i]),
    ensures
        canonical_items(forms, count) == canonical_items(items, count),
    decreases items, count, 0nat,
{
    if 0 < count <= items.len() {
        lemma_forms_keep_text(items, forms, (count - 1) as nat);
        assert(forms[count - 1] == canonical_form(items[count - 1]));
        lemma_canonical_form_keeps_text(items[count - 1]);
    }
}

/// The members in canonical form stand one for one for the written members,
/// and each is a given member with its value in canonical form.
pub proof fn lemma_entries_match_members(members: Seq<JsonEntry>, count: nat)
    requires
        count <= members.len(),
    ensures
        sorted_entries(members, count).len() == sorted_members(members, count).len(),
        forall|i: int|
            0 <= i < sorted_entries(members, count).len() ==> written_member(
                #[trigger] sorted_entries(members, count)[i],
            ) == sorted_members(members, count)[i],
        forall|i: int|
            0 <= i < sorted_entries(members, count).len() ==> exists|at: int|
                0 <= at < count && #[trigger] sorted_entries(members, count)[i] == canonical_entry(
                    members[at],
                ),
    decreases members, count, 0nat,
{
    if count > 0 {
        let before = sorted_entries(members, (count - 1) as nat);
        let written = sorted_members(members, (count - 1) as nat);
        let entry = canonical_entry(members[count - 1]);
        let member = written_member(members[count - 1]);
        let after = sorted_entries(members, count);
        let at = rank(written, member.key);
        lemma_entries_match_members(members, (count - 1) as nat);
        lemma_canonical_form_keeps_text(members[count - 1].value);
        lemma_rank_bounds(written, member.key);
        assert(written_member(entry) == member);
        assert forall|i: int| 0 <= i < after.len() implies written_member(#[trigger] after[i])
            == sorted_members(members, count)[i] by {
            if at < written.len() && written[at].key == member.key {
                if i != at {
                    assert(after[i] == before[i]);
                }
            } else {
                if i < at {
                    assert(after[i] == before[i]);
                } else if i > at {
                    assert(after[i] == before[i - 1]);
                }
            }
        }
        assert forall|i: int| 0 <= i < after.len() implies exists|from: int|
            0 <= from < count && #[trigger] after[i] == canonical_entry(members[from]) by {
            if after[i] == entry {
                assert(after[i] == canonical_entry(members[count - 1]));
            } else {
                let j = if at < written.len() && written[at].key == member.key || i < at {
                    i
                } else {
                    i - 1
                };
                assert(after[i] == before[j]);
                let from = choose|from: int|
                    0 <= from < count - 1 && before[j] == canonical_entry(members[from]);
                assert(after[i] == canonical_entry(members[from]));
            }
        }
    }
}

/// The members in canonical form stand in rising key order.
pub proof fn lemma_entries_rise(members: Seq<JsonEntry>, count: nat)
    requires
        count <= members.len(),
    ensures
        keys_rise(sorted_entries(members, count)),
    decreases members, count, 1nat,
{
    let entries = sorted_entries(members, count);
    let written = sorted_members(members, count);
    lemma_entries_match_members(members, count);
    lemma_members_come_sorted(members, count);
    assert forall|i: int, j: int| 0 <= i < j < entries.len() implies units_before(
        utf16_units(#[trigger] entries[i].key),
        utf16_units(#[trigger] entries[j].key),
    ) by {
        assert(written_member(entries[i]) == written[i]);
        assert(written_member(entries[j]) == written[j]);
        assert(key_before(written[i].key, written[j].key));
        lemma_token_order(entries[i].key, entries[j].key);
    }
}

/// Members that stand in rising key order with values in canonical form are
/// their own canonical form.
pub proof fn lemma_rising_entries_stay(entries: Seq<JsonEntry>, count: nat)
    requires
        keys_rise(entries),
        forall|i: int|
            0 <= i < entries.len() ==> canonical_form((#[trigger] entries[i]).value)
                == entries[i].value,
        count <= entries.len(),
    ensures
        sorted_entries(entries, count) == entries.take(count as int),
    decreases count,
{
    if count > 0 {
        let before = sorted_entries(entries, (count - 1) as nat);
        let written = sorted_members(entries, (count - 1) as nat);
        let entry = canonical_entry(entries[count - 1]);
        let key = string_token(entry.key);
        lemma_rising_entries_stay(entries, (count - 1) as nat);
        lemma_sorted_members_stay(entries, (count - 1) as nat);
        lemma_members_come_sorted(entries, (count - 1) as nat);
        assert(entry == entries[count - 1]);
        assert forall|j: int| 0 <= j < written.len() implies key_before(
            #[trigger] written[j].key,
            key,
        ) by {
            assert(written[j] == written_member(entries[j]));
            lemma_token_order(entries[j].key, entries[count - 1].key);
        }
        lemma_rank_is_position(written, key, written.len() as int);
        assert(sorted_entries(entries, count) =~= entries.take(count as int));
    } else {
        assert(sorted_entries(entries, count) =~= entries.take(count as int));
    }
}

/// A canonical form is its own canonical form: to bring a value into
/// canonical form a second time changes nothing.
pub proof fn lemma_canonical_form_is_fixed(json: Json)
    ensures
        canonical_form(canonical_form(json)) == canonical_form(json),
    decreases json,
{
    match json {
        Json::Float { bits, text } => {
            assert(double_category(0u64) == FloatCategory::Zero);
        },
        Json::Array(items) => {
            let forms = canonical_form(json)->Array_0;
            let again = canonical_form(canonical_form(json))->Array_0;
            assert forall|i: int| 0 <= i < items.len() implies #[trigger] again[i] == forms[i] by {
                lemma_canonical_form_is_fixed(items[i]);
            }
            assert(again =~= forms);
        },
        Json::Object(members) => {
            let entries = sorted_entries(members, members.len());
            lemma_entries_match_members(members, members.len());
            lemma_entries_rise(members, members.len());
            assert forall|i: int| 0 <= i < entries.len() implies canonical_form(
                (#[trigger] entries[i]).value,
            ) == entries[i].value by {
                let from = choose|from: int|
                    0 <= from < members.len() && entries[i] == canonical_entry(members[from]);
                lemma_canonical_form_is_fixed(members[from].value);
            }
            lemma_rising_entries_stay(entries, entries.len());
            assert(entries.take(entries.len() as int) =~= entries);
        },
        _ => {},
    }
}

} // verus!
