//! The buffering frame of one open object: the member being written, and the
//! finished members in key order.

use crate::key::{
    compare_keys, key_before, key_units, lemma_key_asymmetric, lemma_key_irreflexive,
    lemma_key_order_is_text_order, lemma_key_total, lemma_key_transitive, read_key_units,
};
use crate::order::{units_before, KeyOrder};
use vstd::prelude::*;

verus! {

/// A finished member of an object: the bytes that were written for its key,
/// and the bytes that were written for its value.
pub struct MemberView {
    pub key: Seq<u8>,
    pub value: Seq<u8>,
}

/// A finished member of an object. Beside its key it holds the code units of
/// the text that the key stands for, by which it is ordered.
#[derive(Debug)]
pub struct Member {
    units: Vec<u16>,
    key: Vec<u8>,
    value: Vec<u8>,
}

impl View for Member {
    type V = MemberView;

    closed spec fn view(&self) -> MemberView {
        MemberView { key: self.key@, value: self.value@ }
    }
}

impl Member {
    /// The code units that the member holds are those of its key.
    pub closed spec fn units_held(&self) -> bool {
        self.units@ == key_units(self.key@)
    }

    /// A member with the given key and value.
    pub fn new(key: Vec<u8>, value: Vec<u8>) -> (r: Member)
        ensures
            r@ == (MemberView { key: key@, value: value@ }),
            r.units_held(),
    {
        let units = read_key_units(key.as_slice());
        Member { units, key, value }
    }
}

impl Clone for Member {
    fn clone(&self) -> (r: Self)
        ensures
            r@ == self@,
            self.units_held() ==> r.units_held(),
    {
        let mut units: Vec<u16> = Vec::new();
        let mut key: Vec<u8> = Vec::new();
        let mut value: Vec<u8> = Vec::new();
        append_units(&mut units, self.units.as_slice());
        append_bytes(&mut key, self.key.as_slice());
        append_bytes(&mut value, self.value.as_slice());
        assert(units@ =~= self.units@);
        assert(key@ =~= self.key@);
        assert(value@ =~= self.value@);
        Member { units, key, value }
    }
}

/// The members of a frame, each by its view.
pub open spec fn member_views(members: Seq<Member>) -> Seq<MemberView> {
    Seq::new(members.len(), |i: int| members[i]@)
}

/// Each member's key sorts strictly before the keys of those behind it: the
/// keys rise by the code units of the text that they stand for, and no key
/// occurs twice.
pub open spec fn strictly_sorted(members: Seq<MemberView>) -> bool {
    forall|i: int, j: int|
        0 <= i < j < members.len() ==> key_before(
            #[trigger] members[i].key,
            #[trigger] members[j].key,
        )
}

/// How many members have a key that sorts before `key`.
pub open spec fn rank(members: Seq<MemberView>, key: Seq<u8>) -> int
    decreases members.len(),
{
    if members.len() == 0 {
        0
    } else {
        rank(members.drop_last(), key) + if key_before(members.last().key, key) {
            1int
        } else {
            0int
        }
    }
}

/// The members after one more is finished: it takes the place of the member
/// with the same key bytes, or else its own place in key order.
pub open spec fn insert_member(members: Seq<MemberView>, member: MemberView) -> Seq<MemberView> {
    let at = rank(members, member.key);
    if at < members.len() && members[at].key == member.key {
        members.update(at, member)
    } else {
        members.insert(at, member)
    }
}

/// A member as it stands in the output: key, colon, value.
pub open spec fn member_text(member: MemberView) -> Seq<u8> {
    member.key + seq![0x3au8] + member.value
}

/// The members as they stand in the output, separated by commas.
pub open spec fn members_text(members: Seq<MemberView>) -> Seq<u8>
    decreases members.len(),
{
    if members.len() == 0 {
        Seq::empty()
    } else if members.len() == 1 {
        member_text(members[0])
    } else {
        members_text(members.drop_last()) + seq![0x2cu8] + member_text(members.last())
    }
}

/// In sorted members the rank of a key is the index of the first member that
/// does not sort before it.
pub proof fn lemma_rank_is_position(members: Seq<MemberView>, key: Seq<u8>, at: int)
    requires
        strictly_sorted(members),
        0 <= at <= members.len(),
        forall|j: int| 0 <= j < at ==> key_before(#[trigger] members[j].key, key),
        at < members.len() ==> !key_before(members[at].key, key),
    ensures
        rank(members, key) == at,
    decreases members.len(),
{
    if members.len() > 0 {
        let front = members.drop_last();
        let last = members.len() - 1;
        if at == members.len() {
            lemma_rank_is_position(front, key, at - 1);
        } else {
            if at < last && key_before(members[last].key, key) {
                lemma_key_transitive(members[at].key, members[last].key, key);
            }
            lemma_rank_is_position(front, key, at);
        }
    }
}

/// Finishing a member keeps the members strictly sorted.
pub proof fn lemma_insert_keeps_sorted(members: Seq<MemberView>, member: MemberView)
    requires
        strictly_sorted(members),
    ensures
        strictly_sorted(insert_member(members, member)),
{
    let at = rank(members, member.key);
    lemma_rank_bounds(members, member.key);
    lemma_rank_splits(members, member.key);
    let after = insert_member(members, member);
    if at < members.len() && members[at].key == member.key {
        assert forall|i: int, j: int| 0 <= i < j < after.len() implies key_before(
            #[trigger] after[i].key,
            #[trigger] after[j].key,
        ) by {
            assert(after[i].key == members[i].key);
            assert(after[j].key == members[j].key);
        }
    } else {
        assert forall|i: int, j: int| 0 <= i < j < after.len() implies key_before(
            #[trigger] after[i].key,
            #[trigger] after[j].key,
        ) by {
            if j < at {
                assert(after[i] == members[i] && after[j] == members[j]);
            } else if j == at {
                assert(after[i] == members[i]);
            } else if i < at {
                assert(after[i] == members[i] && after[j] == members[j - 1]);
            } else if i == at {
                assert(after[j] == members[j - 1]);
                if j - 1 > at {
                    if members[j - 1].key == member.key || key_before(
                        members[j - 1].key,
                        member.key,
                    ) {
                        assert(key_before(members[at].key, members[j - 1].key));
                        if key_before(members[j - 1].key, member.key) {
                            lemma_key_transitive(
                                members[at].key,
                                members[j - 1].key,
                                member.key,
                            );
                        }
                    }
                }
                lemma_key_total(members[j - 1].key, member.key);
            } else {
                assert(after[i] == members[i - 1] && after[j] == members[j - 1]);
            }
        }
    }
}

/// The rank of a key lies within the members.
pub proof fn lemma_rank_bounds(members: Seq<MemberView>, key: Seq<u8>)
    ensures
        0 <= rank(members, key) <= members.len(),
    decreases members.len(),
{
    if members.len() > 0 {
        lemma_rank_bounds(members.drop_last(), key);
    }
}

/// In sorted members exactly those below the rank of a key sort before it.
pub proof fn lemma_rank_splits(members: Seq<MemberView>, key: Seq<u8>)
    requires
        strictly_sorted(members),
    ensures
        forall|j: int|
            0 <= j < members.len() ==> (key_before(#[trigger] members[j].key, key) <==> j
                < rank(members, key)),
    decreases members.len(),
{
    if members.len() > 0 {
        let front = members.drop_last();
        let last = members.len() - 1;
        lemma_rank_splits(front, key);
        lemma_rank_bounds(front, key);
        assert forall|j: int| 0 <= j < members.len() implies (key_before(
            #[trigger] members[j].key,
            key,
        ) <==> j < rank(members, key)) by {
            if j < last {
                assert(front[j] == members[j]);
                if key_before(members[last].key, key) && !key_before(
                    members[j].key,
                    key,
                ) {
                    lemma_key_transitive(members[j].key, members[last].key, key);
                }
            } else {
                if key_before(members[last].key, key) && rank(front, key) < last {
                    let k = rank(front, key);
                    assert(front[k] == members[k]);
                    lemma_key_transitive(members[k].key, members[last].key, key);
                }
            }
        }
    }
}

/// What finishing a member does to sorted members: the new member is among
/// them, the members with other keys stay, and nothing else is there.
pub proof fn lemma_insert_contents(members: Seq<MemberView>, member: MemberView)
    requires
        strictly_sorted(members),
    ensures
        insert_member(members, member).contains(member),
        forall|i: int|
            0 <= i < members.len() && (#[trigger] members[i]).key != member.key
                ==> insert_member(members, member).contains(members[i]),
        forall|i: int|
            0 <= i < insert_member(members, member).len() ==> {
                let x = #[trigger] insert_member(members, member)[i];
                x == member || (members.contains(x) && x.key != member.key)
            },
{
    let at = rank(members, member.key);
    let after = insert_member(members, member);
    lemma_rank_bounds(members, member.key);
    lemma_rank_splits(members, member.key);
    lemma_key_irreflexive(member.key);
    assert(after[at] == member);
    if at < members.len() && members[at].key == member.key {
        assert forall|i: int|
            0 <= i < members.len() && (#[trigger] members[i]).key
                != member.key implies after.contains(members[i]) by {
            assert(after[i] == members[i]);
        }
        assert forall|i: int| 0 <= i < after.len() implies ({
            let x = #[trigger] after[i];
            x == member || (members.contains(x) && x.key != member.key)
        }) by {
            if i != at {
                assert(after[i] == members[i]);
                if i < at {
                    assert(key_before(members[i].key, members[at].key));
                } else {
                    assert(key_before(members[at].key, members[i].key));
                }
            }
        }
    } else {
        assert forall|i: int|
            0 <= i < members.len() && (#[trigger] members[i]).key
                != member.key implies after.contains(members[i]) by {
            if i < at {
                assert(after[i] == members[i]);
            } else {
                assert(after[i + 1] == members[i]);
            }
        }
        assert forall|i: int| 0 <= i < after.len() implies ({
            let x = #[trigger] after[i];
            x == member || (members.contains(x) && x.key != member.key)
        }) by {
            if i < at {
                assert(after[i] == members[i]);
                assert(key_before(members[i].key, member.key));
            } else if i > at {
                let j = i - 1;
                assert(after[i] == members[j]);
                if members[j].key == member.key {
                    if j > at {
                        assert(key_before(members[at].key, members[j].key));
                    }
                }
            }
        }
    }
}

/// In strictly sorted members no key occurs at two places.
pub proof fn lemma_keys_are_unique(members: Seq<MemberView>, i: int, j: int)
    requires
        strictly_sorted(members),
        0 <= i < members.len(),
        0 <= j < members.len(),
        members[i].key == members[j].key,
    ensures
        i == j,
{
    lemma_key_irreflexive(members[i].key);
    if i < j {
        assert(key_before(members[i].key, members[j].key));
    } else if j < i {
        assert(key_before(members[j].key, members[i].key));
    }
}

/// The members as a mapping from key bytes to value bytes.
pub open spec fn members_map(members: Seq<MemberView>) -> Map<Seq<u8>, Seq<u8>> {
    Map::new(
        |key: Seq<u8>| exists|i: int| 0 <= i < members.len() && #[trigger] members[i].key == key,
        |key: Seq<u8>|
            members[choose|i: int| 0 <= i < members.len() && #[trigger] members[i].key == key].value,
    )
}

/// Finishing a member is an insertion into the mapping from key bytes to
/// value bytes: the value of its key is set, and every other key keeps its
/// value.
pub proof fn lemma_insert_is_map_insert(members: Seq<MemberView>, member: MemberView)
    requires
        strictly_sorted(members),
    ensures
        members_map(insert_member(members, member)) == members_map(members).insert(
            member.key,
            member.value,
        ),
{
    let after = insert_member(members, member);
    let left = members_map(after);
    let right = members_map(members).insert(member.key, member.value);
    lemma_insert_contents(members, member);
    lemma_insert_keeps_sorted(members, member);
    assert forall|key: Seq<u8>| left.dom().contains(key) <==> right.dom().contains(key) by {
        if left.dom().contains(key) {
            let i = choose|i: int| 0 <= i < after.len() && #[trigger] after[i].key == key;
            let x = after[i];
            if x != member {
                let j = choose|j: int| 0 <= j < members.len() && members[j] == x;
                assert(members[j].key == key);
            }
        }
        if right.dom().contains(key) {
            if key == member.key {
                let i = choose|i: int| 0 <= i < after.len() && after[i] == member;
                assert(after[i].key == key);
            } else {
                let j = choose|j: int| 0 <= j < members.len() && #[trigger] members[j].key == key;
                assert(after.contains(members[j]));
                let i = choose|i: int| 0 <= i < after.len() && after[i] == members[j];
                assert(after[i].key == key);
            }
        }
    }
    assert forall|key: Seq<u8>| left.dom().contains(key) implies left[key] == right[key] by {
        let i = choose|i: int| 0 <= i < after.len() && #[trigger] after[i].key == key;
        let x = after[i];
        if key == member.key {
            if x != member {
                assert(x.key != member.key);
            }
        } else {
            let j = choose|j: int| 0 <= j < members.len() && members[j] == x;
            let k = choose|k: int| 0 <= k < members.len() && #[trigger] members[k].key == key;
            assert(members[j].key == key);
            lemma_keys_are_unique(members, j, k);
        }
    }
    assert(left =~= right);
}

/// Members in strict key order stand in the order of their keys' text: the
/// code units of the text that a key stands for never sort behind those of
/// a key that follows it, and they sort strictly before them unless both
/// keys stand for the same text.
pub proof fn lemma_sorted_rises_by_text(members: Seq<MemberView>, i: int, j: int)
    requires
        strictly_sorted(members),
        0 <= i < j < members.len(),
    ensures
        units_before(key_units(members[i].key), key_units(members[j].key)) || key_units(
            members[i].key,
        ) == key_units(members[j].key),
        !units_before(key_units(members[j].key), key_units(members[i].key)),
{
    assert(key_before(members[i].key, members[j].key));
    lemma_key_order_is_text_order(members[i].key, members[j].key);
}

/// The code units that each member holds are those of its key.
pub open spec fn all_units_held(members: Seq<Member>) -> bool {
    forall|i: int| 0 <= i < members.len() ==> (#[trigger] members[i]).units_held()
}

/// Puts a finished member into sorted members, in place of the member with
/// the same key bytes if there is one.
fn insert_sorted(members: &mut Vec<Member>, member: Member)
    requires
        strictly_sorted(member_views(old(members)@)),
        all_units_held(old(members)@),
        member.units_held(),
    ensures
        member_views(final(members)@) == insert_member(member_views(old(members)@), member@),
        strictly_sorted(member_views(final(members)@)),
        all_units_held(final(members)@),
{
    let ghost before = member_views(members@);
    let mut at: usize = 0;
    let mut found: bool = false;
    while at < members.len()
        invariant_except_break
            !found,
        invariant
            at <= members@.len(),
            members@ == old(members)@,
            before == member_views(members@),
            all_units_held(members@),
            member.units_held(),
            forall|j: int| 0 <= j < at ==> key_before(#[trigger] before[j].key, member.key@),
        ensures
            at <= members@.len(),
            members@ == old(members)@,
            forall|j: int| 0 <= j < at ==> key_before(#[trigger] before[j].key, member.key@),
            at < members@.len() ==> !key_before(before[at as int].key, member.key@),
            found <==> at < members@.len() && before[at as int].key == member.key@,
        decreases members@.len() - at,
    {
        assert(members@[at as int].units_held());
        let held = &members[at];
        match compare_keys(
            held.units.as_slice(),
            held.key.as_slice(),
            member.units.as_slice(),
            member.key.as_slice(),
        ) {
            KeyOrder::Before => {
                at = at + 1;
            },
            KeyOrder::Same => {
                found = true;
                proof {
                    lemma_key_irreflexive(member.key@);
                }
                break ;
            },
            KeyOrder::After => {
                proof {
                    lemma_key_asymmetric(member.key@, before[at as int].key);
                    lemma_key_irreflexive(member.key@);
                }
                break ;
            },
        }
    }
    proof {
        lemma_rank_is_position(before, member.key@, at as int);
        lemma_insert_keeps_sorted(before, member@);
    }
    if found {
        members[at] = member;
    } else {
        members.insert(at, member);
    }
    assert(member_views(members@) =~= insert_member(before, member@));
}

/// Appends `bytes` to `buf`.
pub fn append_bytes(buf: &mut Vec<u8>, bytes: &[u8])
    ensures
        final(buf)@ == old(buf)@ + bytes@,
{
    buf.extend_from_slice(bytes);
    assert(buf@ =~= old(buf)@ + bytes@);
}

/// Appends `units` to `buf`.
pub fn append_units(buf: &mut Vec<u16>, units: &[u16])
    ensures
        final(buf)@ == old(buf)@ + units@,
{
    buf.extend_from_slice(units);
    assert(buf@ =~= old(buf)@ + units@);
}

/// The state of a frame.
pub struct EntryView {
    /// The bytes of the key that is being written.
    pub pending_key: Seq<u8>,
    /// The bytes of the value that is being written.
    pub pending_value: Seq<u8>,
    /// The finished members, in key order.
    pub members: Seq<MemberView>,
    /// Whether writes belong to a key, or else to its value.
    pub key_phase: bool,
}

impl EntryView {
    /// The frame of an object that was just opened.
    pub open spec fn fresh() -> EntryView {
        EntryView {
            pending_key: Seq::empty(),
            pending_value: Seq::empty(),
            members: Seq::empty(),
            key_phase: true,
        }
    }

    /// The frame after a write: in the key phase the bytes join the key,
    /// otherwise the value.
    pub open spec fn wrote(self, bytes: Seq<u8>) -> EntryView {
        if self.key_phase {
            EntryView { pending_key: self.pending_key + bytes, ..self }
        } else {
            EntryView { pending_value: self.pending_value + bytes, ..self }
        }
    }

    /// The frame as a key begins: what was written for a key is dropped.
    pub open spec fn key_begun(self) -> EntryView {
        EntryView { pending_key: Seq::empty(), key_phase: true, ..self }
    }

    /// The frame as a key ends: writes now belong to the value.
    pub open spec fn key_ended(self) -> EntryView {
        EntryView { key_phase: false, ..self }
    }

    /// The member that is being written.
    pub open spec fn pending(self) -> MemberView {
        MemberView { key: self.pending_key, value: self.pending_value }
    }

    /// The frame as a value ends: the member that was being written is
    /// finished. It replaces the member with the same key bytes, and every
    /// member with other key bytes stays.
    pub open spec fn member_done(self) -> EntryView {
        EntryView {
            pending_key: Seq::empty(),
            pending_value: Seq::empty(),
            members: insert_member(self.members, self.pending()),
            ..self
        }
    }
}

/// The finished members of an open object, kept strictly sorted by key.
#[derive(Debug)]
pub struct MemberList {
    items: Vec<Member>,
}

impl View for MemberList {
    type V = Seq<MemberView>;

    closed spec fn view(&self) -> Seq<MemberView> {
        member_views(self.items@)
    }
}

impl MemberList {
    #[verifier::type_invariant]
    spec fn members_sorted(&self) -> bool {
        strictly_sorted(member_views(self.items@)) && all_units_held(self.items@)
    }

    /// No members.
    pub fn new() -> (r: MemberList)
        ensures
            r@ == Seq::<MemberView>::empty(),
    {
        let r = MemberList { items: Vec::new() };
        assert(r@ =~= Seq::empty());
        r
    }

    /// The members are strictly sorted by their keys.
    pub fn sorted(&self)
        ensures
            strictly_sorted(self@),
    {
        proof {
            use_type_invariant(self);
        }
    }

    /// Puts in a finished member. It replaces the member with the same key
    /// bytes, and every member with other key bytes stays.
    pub fn insert(&mut self, key: Vec<u8>, value: Vec<u8>)
        ensures
            final(self)@ == insert_member(old(self)@, MemberView { key: key@, value: value@ }),
            members_map(final(self)@) == members_map(old(self)@).insert(key@, value@),
            strictly_sorted(old(self)@),
            strictly_sorted(final(self)@),
    {
        proof {
            use_type_invariant(&*self);
            lemma_insert_is_map_insert(self@, MemberView { key: key@, value: value@ });
        }
        let member = Member::new(key, value);
        let mut items: Vec<Member> = Vec::new();
        std::mem::swap(&mut self.items, &mut items);
        insert_sorted(&mut items, member);
        self.items = items;
    }

    /// Appends the members to `buf` as they stand in the output.
    pub fn write_text(&self, buf: &mut Vec<u8>)
        ensures
            final(buf)@ == old(buf)@ + members_text(self@),
    {
        let mut i: usize = 0;
        while i < self.items.len()
            invariant
                i <= self.items@.len(),
                buf@ == old(buf)@ + members_text(self@.take(i as int)),
            decreases self.items@.len() - i,
        {
            proof {
                assert(self@.take(i + 1).drop_last() =~= self@.take(i as int));
            }
            if i > 0 {
                buf.push(0x2c);
            }
            let member = &self.items[i];
            append_bytes(buf, member.key.as_slice());
            buf.push(0x3a);
            append_bytes(buf, member.value.as_slice());
            i = i + 1;
            assert(buf@ =~= old(buf)@ + members_text(self@.take(i as int)));
        }
        assert(self@.take(self@.len() as int) =~= self@);
    }
}

impl Clone for MemberList {
    fn clone(&self) -> (r: Self)
        ensures
            r@ == self@,
    {
        proof {
            use_type_invariant(self);
        }
        let mut items: Vec<Member> = Vec::new();
        let mut i: usize = 0;
        while i < self.items.len()
            invariant
                i <= self.items@.len(),
                member_views(items@) == member_views(self.items@).take(i as int),
                all_units_held(self.items@),
                all_units_held(items@),
            decreases self.items@.len() - i,
        {
            assert(self.items@[i as int].units_held());
            let member = self.items[i].clone();
            let ghost copied = member_views(items@);
            items.push(member);
            assert(member_views(items@) =~= copied.push(self.items@[i as int]@));
            i = i + 1;
            assert(member_views(self.items@).take(i as int) =~= member_views(self.items@).take(
                i - 1,
            ).push(self.items@[i - 1]@));
        }
        assert(member_views(items@) =~= member_views(self.items@));
        MemberList { items }
    }
}

/// The frame of one open object.
#[derive(Debug)]
pub struct Entry {
    /// The finished members.
    pub members: MemberList,
    /// The bytes of the key that is being written.
    pub pending_key: Vec<u8>,
    /// The bytes of the value that is being written.
    pub pending_value: Vec<u8>,
    /// Whether writes belong to a key, or else to its value.
    pub key_phase: bool,
}

impl View for Entry {
    type V = EntryView;

    open spec fn view(&self) -> EntryView {
        EntryView {
            pending_key: self.pending_key@,
            pending_value: self.pending_value@,
            members: self.members@,
            key_phase: self.key_phase,
        }
    }
}

impl Clone for Entry {
    fn clone(&self) -> (r: Self)
        ensures
            r@ == self@,
    {
        let mut pending_key: Vec<u8> = Vec::new();
        let mut pending_value: Vec<u8> = Vec::new();
        append_bytes(&mut pending_key, self.pending_key.as_slice());
        append_bytes(&mut pending_value, self.pending_value.as_slice());
        assert(pending_key@ =~= self.pending_key@);
        assert(pending_value@ =~= self.pending_value@);
        Entry {
            members: self.members.clone(),
            pending_key,
            pending_value,
            key_phase: self.key_phase,
        }
    }
}

impl Entry {
    /// The frame of an object that was just opened.
    pub fn new() -> (r: Entry)
        ensures
            r@ == EntryView::fresh(),
    {
        Entry {
            members: MemberList::new(),
            pending_key: Vec::new(),
            pending_value: Vec::new(),
            key_phase: true,
        }
    }

    /// The buffer that writes go to: that of the key in the key phase, that
    /// of the value otherwise.
    pub fn buffer_mut(&mut self) -> (r: &mut Vec<u8>)
        ensures
            r@ == if old(self)@.key_phase {
                old(self)@.pending_key
            } else {
                old(self)@.pending_value
            },
            final(self)@ == if old(self)@.key_phase {
                (EntryView { pending_key: final(r)@, ..old(self)@ })
            } else {
                (EntryView { pending_value: final(r)@, ..old(self)@ })
            },
    {
        if self.key_phase {
            &mut self.pending_key
        } else {
            &mut self.pending_value
        }
    }

    /// Takes a write.
    pub fn write(&mut self, bytes: &[u8])
        ensures
            final(self)@ == old(self)@.wrote(bytes@),
    {
        if self.key_phase {
            append_bytes(&mut self.pending_key, bytes);
        } else {
            append_bytes(&mut self.pending_value, bytes);
        }
    }

    /// Begins a key.
    pub fn begin_key(&mut self)
        ensures
            final(self)@ == old(self)@.key_begun(),
    {
        self.pending_key.clear();
        self.key_phase = true;
    }

    /// Ends a key.
    pub fn end_key(&mut self)
        ensures
            final(self)@ == old(self)@.key_ended(),
    {
        self.key_phase = false;
    }

    /// Ends a value: the member that was being written is finished. The
    /// members stand in strict key order before and after.
    pub fn end_value(&mut self)
        ensures
            final(self)@ == old(self)@.member_done(),
            members_map(final(self)@.members) == members_map(old(self)@.members).insert(
                old(self)@.pending_key,
                old(self)@.pending_value,
            ),
            strictly_sorted(old(self)@.members),
            strictly_sorted(final(self)@.members),
    {
        let mut key: Vec<u8> = Vec::new();
        let mut value: Vec<u8> = Vec::new();
        std::mem::swap(&mut self.pending_key, &mut key);
        std::mem::swap(&mut self.pending_value, &mut value);
        self.members.insert(key, value);
    }
}

} // verus!
