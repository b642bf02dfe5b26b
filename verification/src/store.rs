//! The tables in memory, with the statements that read and change them.
use vstd::prelude::*;
use crate::condition::Condition;
use crate::pattern::like;
use crate::tables::{
    AttributeKey, AttributeRow, AttributeRowView, GroupRow, GroupRowView, MembershipRow,
    MembershipRowView, TablesView, attribute_not_of, group_not, holds, key_before, key_of,
    lemma_key_before_total, lemma_key_before_transitive, lemma_key_place, lemma_map_at,
    group_selected, keys_of_names, lemma_without_group_wf, membership_not_of, membership_of,
    renamed, renamed_in, row_before, row_selected, satisfies, selected, selected_rows, users_of,
    with_rows, without_group,
};
use crate::seqs::{lemma_filter_all, lemma_filter_len_all};
use crate::text::{chars_of, lowercase, lowercase_of, str_eq, str_less};
use crate::types::{AttributeView, Group, GroupId, GroupView, views};

verus! {

/// The three tables.
pub struct Tables {
    pub groups: Vec<GroupRow>,
    pub attributes: Vec<AttributeRow>,
    pub memberships: Vec<MembershipRow>,
    pub next_group_id: i32,
}

impl View for Tables {
    type V = TablesView;

    open spec fn view(&self) -> TablesView {
        TablesView {
            groups: views(self.groups@),
            attributes: views(self.attributes@),
            memberships: views(self.memberships@),
            next_group_id: self.next_group_id as int,
        }
    }
}

/// Whether the key of `row` comes before the key made of `group_id` and
/// `name`.
fn row_key_before(row: &AttributeRow, group_id: GroupId, name: &str) -> (r: bool)
    ensures
        r == key_before(key_of(row@), (group_id, name@)),
{
    row.group_id.0 < group_id.0 || (row.group_id.0 == group_id.0 && str_less(row.attribute_name.as_str(), name))
}

/// Whether `row` has the key made of `group_id` and `name`.
fn row_has_key(row: &AttributeRow, group_id: GroupId, name: &str) -> (r: bool)
    ensures
        r == (key_of(row@) == (group_id, name@)),
{
    row.group_id.0 == group_id.0 && str_eq(row.attribute_name.as_str(), name)
}

/// Tables with the same group rows have the same groups.
proof fn lemma_same_groups(t: TablesView, t2: TablesView, id: GroupId)
    requires
        t.groups == t2.groups,
    ensures
        t.has_group(id) == t2.has_group(id),
{
    if t.has_group(id) {
        let i = choose|i: int| 0 <= i < t.groups.len() && (#[trigger] t.groups[i]).group_id == id;
        assert(t2.groups[i].group_id == id);
    }
    if t2.has_group(id) {
        let i = choose|i: int| 0 <= i < t2.groups.len() && (#[trigger] t2.groups[i]).group_id == id;
        assert(t.groups[i].group_id == id);
    }
}

/// A row that may belong to a group.
pub trait GroupOwned: View + Sized {
    /// The test that a row does not belong to the group `id`.
    spec fn outside(id: GroupId) -> spec_fn(Self::V) -> bool;

    /// Whether the row belongs to the group `id`.
    fn belongs_to(&self, id: GroupId) -> (r: bool)
        ensures
            r == !Self::outside(id)(self@),
    ;
}

impl GroupOwned for GroupRow {
    open spec fn outside(id: GroupId) -> spec_fn(GroupRowView) -> bool {
        group_not(id)
    }

    fn belongs_to(&self, id: GroupId) -> (r: bool) {
        self.group_id.0 == id.0
    }
}

impl GroupOwned for AttributeRow {
    open spec fn outside(id: GroupId) -> spec_fn(AttributeRowView) -> bool {
        attribute_not_of(id)
    }

    fn belongs_to(&self, id: GroupId) -> (r: bool) {
        self.group_id.0 == id.0
    }
}

impl GroupOwned for MembershipRow {
    open spec fn outside(id: GroupId) -> spec_fn(MembershipRowView) -> bool {
        membership_not_of(id)
    }

    fn belongs_to(&self, id: GroupId) -> (r: bool) {
        self.group_id.0 == id.0
    }
}

/// Removes the rows that belong to the group `id`; the others keep their
/// order. The number of rows removed comes back.
fn remove_owned<T: GroupOwned>(v: &mut Vec<T>, id: GroupId) -> (removed: usize)
    ensures
        views(final(v)@) == views(old(v)@).filter(T::outside(id)),
        removed == old(v)@.len() - final(v)@.len(),
{
    let ghost orig = v@;
    let ghost pred = T::outside(id);
    let n = v.len();
    let mut i: usize = 0;
    let mut removed: usize = 0;
    assert(views(orig).take(0) =~= Seq::<T::V>::empty());
    assert(views(orig).take(0).filter(pred) =~= Seq::<T::V>::empty()) by {
        reveal(Seq::filter);
    }
    assert(views(v@.take(0)) =~= Seq::<T::V>::empty());
    while i < v.len()
        invariant
            i <= v@.len(),
            n == orig.len(),
            pred == T::outside(id),
            i + removed <= orig.len(),
            v@.len() + removed == orig.len(),
            v@.skip(i as int) == orig.skip(i + removed),
            views(v@.take(i as int)) == views(orig).take(i + removed).filter(pred),
        decreases v@.len() - i,
    {
        let ghost seen = i + removed;
        let ghost before = v@;
        assert(before[i as int] == before.skip(i as int)[0]);
        assert(orig[seen as int] == orig.skip(seen as int)[0]);
        assert(views(orig).take(seen + 1) =~= views(orig).take(seen as int).push(orig[seen as int]@));
        proof {
            views(orig).take(seen as int).lemma_filter_push(orig[seen as int]@, pred);
        }
        if v[i].belongs_to(id) {
            v.remove(i);
            removed += 1;
            assert(v@.skip(i as int) =~= orig.skip(seen + 1)) by {
                assert(before.skip(i as int).skip(1) =~= v@.skip(i as int));
                assert(orig.skip(seen as int).skip(1) =~= orig.skip(seen + 1));
            }
            assert(v@.take(i as int) =~= before.take(i as int));
        } else {
            assert(v@.skip(i + 1) =~= orig.skip(seen + 1)) by {
                assert(before.skip(i as int).skip(1) =~= v@.skip(i + 1));
                assert(orig.skip(seen as int).skip(1) =~= orig.skip(seen + 1));
            }
            assert(views(v@.take(i + 1)) =~= views(v@.take(i as int)).push(v@[i as int]@));
            i += 1;
        }
    }
    assert(v@.take(i as int) =~= v@);
    assert(views(orig).take(orig.len() as int) =~= views(orig));
    removed
}

/// Whether two byte strings are equal.
fn bytes_eq(a: &[u8], b: &[u8]) -> (r: bool)
    ensures
        r == (a@ == b@),
{
    if a.len() != b.len() {
        return false;
    }
    let mut i: usize = 0;
    while i < a.len()
        invariant
            i <= a.len(),
            a@.len() == b@.len(),
            forall|j: int| 0 <= j < i ==> a@[j] == b@[j],
        decreases a.len() - i,
    {
        if a[i] != b[i] {
            return false;
        }
        i += 1;
    }
    assert(a@ =~= b@);
    true
}

/// The group of the row `g` as it is listed, with its members and without
/// attributes.
pub open spec fn bare_group(t: TablesView, g: GroupRowView) -> GroupView {
    GroupView {
        id: g.group_id,
        display_name: g.display_name,
        creation_date: g.creation_date,
        uuid: g.uuid,
        users: users_of(t, g.group_id),
        attributes: Seq::empty(),
    }
}

/// The function that takes a group row to the group as it is listed, with
/// its members and without attributes.
pub open spec fn bare_of(t: TablesView) -> spec_fn(GroupRowView) -> GroupView {
    |g: GroupRowView| bare_group(t, g)
}

/// A group that exists still exists when groups have been added.
proof fn lemma_more_groups(t: TablesView, t2: TablesView, id: GroupId)
    requires
        t.has_group(id),
        t.groups.len() <= t2.groups.len(),
        forall|i: int| 0 <= i < t.groups.len() ==> t2.groups[i] == t.groups[i],
    ensures
        t2.has_group(id),
{
    let i = choose|i: int| 0 <= i < t.groups.len() && (#[trigger] t.groups[i]).group_id == id;
    assert(t2.groups[i].group_id == id);
}

/// Tables whose group rows have the same ids at the same places have the
/// same groups.
proof fn lemma_same_ids(t: TablesView, t2: TablesView, id: GroupId)
    requires
        t.has_group(id),
        t.groups.len() == t2.groups.len(),
        forall|i: int| 0 <= i < t.groups.len() ==> (#[trigger] t2.groups[i]).group_id == t.groups[i].group_id,
    ensures
        t2.has_group(id),
{
    let i = choose|i: int| 0 <= i < t.groups.len() && (#[trigger] t.groups[i]).group_id == id;
    assert(t2.groups[i].group_id == id);
}

impl Tables {
    /// Tables without rows.
    pub fn new() -> (t: Tables)
        ensures
            t@.wf(),
            t@.groups.len() == 0,
            t@.attributes.len() == 0,
            t@.memberships.len() == 0,
            t@.next_group_id == 1,
    {
        Tables { groups: Vec::new(), attributes: Vec::new(), memberships: Vec::new(), next_group_id: 1 }
    }

    /// The place of the first attribute row whose key does not come before
    /// the given one.
    fn attribute_place(&self, group_id: GroupId, name: &str) -> (i: usize)
        requires
            self@.attributes_ordered(),
        ensures
            i <= self@.attributes.len(),
            forall|j: int| 0 <= j < i ==> key_before(key_of(#[trigger] self@.attributes[j]), (group_id, name@)),
            forall|j: int|
                i <= j < self@.attributes.len() ==> !key_before(
                    key_of(#[trigger] self@.attributes[j]),
                    (group_id, name@),
                ),
    {
        let mut i: usize = 0;
        while i < self.attributes.len() && row_key_before(&self.attributes[i], group_id, name)
            invariant
                i <= self.attributes.len(),
                forall|j: int| 0 <= j < i ==> key_before(key_of(#[trigger] self@.attributes[j]), (group_id, name@)),
            decreases self.attributes.len() - i,
        {
            i += 1;
        }
        proof {
            let k = (group_id, name@);
            assert forall|j: int| i <= j < self@.attributes.len() implies !key_before(
                key_of(#[trigger] self@.attributes[j]),
                k,
            ) by {
                if j > i && key_before(key_of(self@.attributes[j]), k) {
                    assert(row_before(self@.attributes[i as int], self@.attributes[j]));
                    lemma_key_before_transitive(key_of(self@.attributes[i as int]), key_of(self@.attributes[j]), k);
                }
            }
        }
        i
    }

    /// Stores `row`: in place of the row with its key where there is one,
    /// as a new row where there is none.
    pub fn upsert_attribute(&mut self, row: AttributeRow)
        requires
            old(self)@.wf(),
            old(self)@.has_group(row.group_id),
        ensures
            final(self)@.wf(),
            final(self)@.groups == old(self)@.groups,
            final(self)@.memberships == old(self)@.memberships,
            final(self)@.next_group_id == old(self)@.next_group_id,
            final(self)@.attribute_map() == old(self)@.attribute_map().insert(key_of(row@), row@.value),
    {
        let ghost t = self@;
        let ghost k = key_of(row@);
        let ghost r = row@;
        let i = self.attribute_place(row.group_id, row.attribute_name.as_str());
        let replace = i < self.attributes.len() && row_has_key(
            &self.attributes[i],
            row.group_id,
            row.attribute_name.as_str(),
        );
        if replace {
            self.attributes.set(i, row);
        } else {
            self.attributes.insert(i, row);
        }
        proof {
            let t2 = self@;
            let a = t.attributes;
            let b = t2.attributes;
            if replace {
                assert(b =~= a.update(i as int, r));
                assert forall|x: int, y: int| 0 <= x < y < b.len() implies row_before(#[trigger] b[x], #[trigger] b[y]) by {
                    assert(row_before(a[x], a[y]));
                }
            } else {
                assert(b =~= a.insert(i as int, r));
                assert forall|x: int, y: int| 0 <= x < y < b.len() implies row_before(#[trigger] b[x], #[trigger] b[y]) by {
                    if y < i {
                        assert(row_before(a[x], a[y]));
                    } else if y == i {
                    } else if x == i {
                        lemma_key_before_total(key_of(a[y - 1]), k);
                        if y - 1 > i {
                            assert(row_before(a[i as int], a[y - 1]));
                            lemma_key_before_total(key_of(a[i as int]), k);
                            if key_before(k, key_of(a[i as int])) {
                                lemma_key_before_transitive(k, key_of(a[i as int]), key_of(a[y - 1]));
                            }
                        }
                    } else if x < i {
                        assert(row_before(a[x], a[y - 1]));
                    } else {
                        assert(row_before(a[x - 1], a[y - 1]));
                    }
                }
            }
            assert(t2.attributes_ordered());
            assert(t2.groups == t.groups);
            assert(t2.memberships == t.memberships);
            assert forall|x: int| 0 <= x < b.len() implies t2.has_group((#[trigger] b[x]).group_id) by {
                let y = if replace || x < i {
                    x
                } else {
                    x - 1
                };
                if x == i {
                    assert(t.has_group(r.group_id));
                } else {
                    assert(b[x] == a[y]);
                    assert(t.has_group(a[y].group_id));
                }
                lemma_same_groups(t, t2, b[x].group_id);
            }
            assert forall|x: int| 0 <= x < t2.memberships.len() implies t2.has_group(
                (#[trigger] t2.memberships[x]).group_id,
            ) by {
                assert(t.has_group(t.memberships[x].group_id));
                lemma_same_groups(t, t2, t2.memberships[x].group_id);
            }
            assert(t2.wf());
            let m = t.attribute_map().insert(k, r.value);
            let m2 = t2.attribute_map();
            assert forall|q: AttributeKey| m2.dom().contains(q) == m.dom().contains(q) by {
                if t2.has_key(q) {
                    let x = choose|x: int| 0 <= x < b.len() && key_of(#[trigger] b[x]) == q;
                    if q != k {
                        if replace {
                            assert(key_of(a[x]) == q);
                        } else if x < i {
                            assert(key_of(a[x]) == q);
                        } else {
                            assert(key_of(a[x - 1]) == q);
                        }
                    }
                }
                if q == k {
                    assert(key_of(b[i as int]) == k);
                } else if t.has_key(q) {
                    let x = choose|x: int| 0 <= x < a.len() && key_of(#[trigger] a[x]) == q;
                    if replace || x < i {
                        assert(key_of(b[x]) == q);
                    } else {
                        assert(key_of(b[x + 1]) == q);
                    }
                }
            }
            assert forall|q: AttributeKey| m2.dom().contains(q) implies m2[q] == m[q] by {
                let x = choose|x: int| 0 <= x < b.len() && key_of(#[trigger] b[x]) == q;
                lemma_map_at(t2, x);
                if q != k {
                    if replace || x < i {
                        assert(b[x] == a[x]);
                        lemma_map_at(t, x);
                    } else {
                        assert(b[x] == a[x - 1]);
                        lemma_map_at(t, x - 1);
                    }
                } else {
                    lemma_key_place(t2, x, i as int);
                }
            }
            assert(m2 =~= m);
        }
    }

    /// Removes the row with the given key, if there is one.
    pub fn remove_attribute(&mut self, group_id: GroupId, name: &str)
        requires
            old(self)@.wf(),
        ensures
            final(self)@.wf(),
            final(self)@.groups == old(self)@.groups,
            final(self)@.memberships == old(self)@.memberships,
            final(self)@.next_group_id == old(self)@.next_group_id,
            final(self)@.attribute_map() == old(self)@.attribute_map().remove((group_id, name@)),
    {
        let ghost t = self@;
        let ghost k = (group_id, name@);
        let i = self.attribute_place(group_id, name);
        let found = i < self.attributes.len() && row_has_key(&self.attributes[i], group_id, name);
        if found {
            self.attributes.remove(i);
        }
        proof {
            let t2 = self@;
            let a = t.attributes;
            let b = t2.attributes;
            assert(t2.groups == t.groups);
            assert(t2.memberships == t.memberships);
            if found {
                assert(b =~= a.remove(i as int));
            } else {
                assert(b =~= a);
            }
            assert forall|x: int, y: int| 0 <= x < y < b.len() implies row_before(#[trigger] b[x], #[trigger] b[y]) by {
                let x0 = if found && x >= i { x + 1 } else { x };
                let y0 = if found && y >= i { y + 1 } else { y };
                assert(row_before(a[x0], a[y0]));
            }
            assert forall|x: int| 0 <= x < b.len() implies t2.has_group((#[trigger] b[x]).group_id) by {
                let x0 = if found && x >= i { x + 1 } else { x };
                assert(b[x] == a[x0]);
                assert(t.has_group(a[x0].group_id));
                lemma_same_groups(t, t2, b[x].group_id);
            }
            assert forall|x: int| 0 <= x < t2.memberships.len() implies t2.has_group(
                (#[trigger] t2.memberships[x]).group_id,
            ) by {
                assert(t.has_group(t.memberships[x].group_id));
                lemma_same_groups(t, t2, t2.memberships[x].group_id);
            }
            assert(t2.wf());
            let m = t.attribute_map().remove(k);
            let m2 = t2.attribute_map();
            assert forall|q: AttributeKey| m2.dom().contains(q) == m.dom().contains(q) by {
                if t2.has_key(q) {
                    let x = choose|x: int| 0 <= x < b.len() && key_of(#[trigger] b[x]) == q;
                    let x0 = if found && x >= i { x + 1 } else { x };
                    assert(key_of(a[x0]) == q);
                    if q == k {
                        if found {
                            lemma_key_place(t, x0, i as int);
                        } else {
                            lemma_key_before_total(k, k);
                            if x < i {
                                assert(key_before(key_of(a[x]), k));
                            } else if x > i {
                                assert(row_before(a[i as int], a[x]));
                                assert(!key_before(key_of(a[i as int]), k));
                            }
                        }
                    }
                }
                if q != k && t.has_key(q) {
                    let x = choose|x: int| 0 <= x < a.len() && key_of(#[trigger] a[x]) == q;
                    let x2 = if found && x > i { x - 1 } else { x };
                    assert(key_of(b[x2]) == q);
                }
            }
            assert forall|q: AttributeKey| m2.dom().contains(q) implies m2[q] == m[q] by {
                let x = choose|x: int| 0 <= x < b.len() && key_of(#[trigger] b[x]) == q;
                let x0 = if found && x >= i { x + 1 } else { x };
                lemma_map_at(t2, x);
                assert(b[x] == a[x0]);
                lemma_map_at(t, x0);
            }
            assert(m2 =~= m);
        }
    }

    /// The place of the group row with this id.
    pub fn find_group(&self, id: GroupId) -> (r: Option<usize>)
        ensures
            match r {
                Some(i) => {
                    &&& i < self@.groups.len()
                    &&& self@.groups[i as int].group_id == id
                    &&& forall|j: int| 0 <= j < i ==> (#[trigger] self@.groups[j]).group_id != id
                },
                None => !self@.has_group(id),
            },
    {
        let mut i: usize = 0;
        while i < self.groups.len()
            invariant
                i <= self.groups.len(),
                forall|j: int| 0 <= j < i ==> (#[trigger] self@.groups[j]).group_id != id,
            decreases self.groups.len() - i,
        {
            if self.groups[i].group_id.0 == id.0 {
                return Some(i);
            }
            i += 1;
        }
        None
    }

    /// Whether the user is a member of the group.
    pub fn is_member(&self, user_id: &str, group_id: GroupId) -> (r: bool)
        ensures
            r == self@.is_member(user_id@, group_id),
    {
        let mut i: usize = 0;
        while i < self.memberships.len()
            invariant
                i <= self.memberships.len(),
                forall|j: int|
                    0 <= j < i ==> !((#[trigger] self@.memberships[j]).user_id == user_id@
                        && self@.memberships[j].group_id == group_id),
            decreases self.memberships.len() - i,
        {
            if self.memberships[i].group_id.0 == group_id.0 && str_eq(self.memberships[i].user_id.as_str(), user_id) {
                assert(self@.memberships[i as int] == self.memberships@[i as int]@);
                return true;
            }
            assert(self@.memberships[i as int] == self.memberships@[i as int]@);
            i += 1;
        }
        false
    }

    /// Whether the group has a row for the attribute `name` and, where
    /// `value` is given, with that stored value.
    pub fn has_attribute(&self, group_id: GroupId, name: &str, value: &Option<Vec<u8>>) -> (r: bool)
        ensures
            r == self@.has_attribute(group_id, name@, crate::condition::bytes_view(*value)),
    {
        let mut i: usize = 0;
        while i < self.attributes.len()
            invariant
                i <= self.attributes.len(),
                forall|j: int|
                    0 <= j < i ==> !((#[trigger] self@.attributes[j]).group_id == group_id
                        && self@.attributes[j].attribute_name == name@ && (crate::condition::bytes_view(*value) matches Some(v)
                        ==> self@.attributes[j].value == v)),
            decreases self.attributes.len() - i,
        {
            assert(self@.attributes[i as int] == self.attributes@[i as int]@);
            if row_has_key(&self.attributes[i], group_id, name) {
                let same = match value {
                    Some(v) => bytes_eq(self.attributes[i].value.as_slice(), v.as_slice()),
                    None => true,
                };
                if same {
                    return true;
                }
            }
            i += 1;
        }
        false
    }

    /// Whether the condition `c` holds of the group row `g`.
    pub fn eval(&self, c: &Condition, g: &GroupRow) -> (r: bool)
        ensures
            r == holds(c@, self@, g@),
        decreases c,
    {
        match c {
            Condition::Value(b) => *b,
            Condition::All(cs) => {
                let mut i: usize = 0;
                while i < cs.len()
                    invariant
                        i <= cs.len(),
                        *c == Condition::All(*cs),
                        forall|j: int| 0 <= j < i ==> holds(#[trigger] c@->All_0[j], self@, g@),
                    decreases cs.len() - i,
                {
                    if !self.eval(&cs[i], g) {
                        assert(c@->All_0[i as int] == cs@[i as int]@);
                        return false;
                    }
                    assert(c@->All_0[i as int] == cs@[i as int]@);
                    i += 1;
                }
                true
            },
            Condition::Any(cs) => {
                let mut i: usize = 0;
                while i < cs.len()
                    invariant
                        i <= cs.len(),
                        *c == Condition::Any(*cs),
                        forall|j: int| 0 <= j < i ==> !holds(#[trigger] c@->Any_0[j], self@, g@),
                    decreases cs.len() - i,
                {
                    if self.eval(&cs[i], g) {
                        assert(c@->Any_0[i as int] == cs@[i as int]@);
                        return true;
                    }
                    assert(c@->Any_0[i as int] == cs@[i as int]@);
                    i += 1;
                }
                false
            },
            Condition::Not(d) => !self.eval(d, g),
            Condition::LowercaseDisplayNameEquals(s) => str_eq(g.lowercase_display_name.as_str(), s.as_str()),
            Condition::GroupIdEquals(id) => g.group_id.0 == id.0,
            Condition::UuidEquals(u) => str_eq(g.uuid.as_str(), u.as_str()),
            Condition::GroupIdInMemberships(user) => self.is_member(user.as_str(), g.group_id),
            Condition::LowercaseDisplayNameLike(p) => {
                let pattern = chars_of(p.as_str());
                let text = chars_of(g.lowercase_display_name.as_str());
                like(&pattern, &text)
            },
            Condition::GroupIdInAttributes(name, value) => self.has_attribute(g.group_id, name.as_str(), value),
            Condition::GroupIdInGroups(d) => {
                let inner: &Condition = d;
                let mut j: usize = 0;
                while j < self.groups.len()
                    invariant
                        j <= self.groups.len(),
                        *c == Condition::GroupIdInGroups(Box::new(*inner)),
                        forall|k: int|
                            0 <= k < j ==> !((#[trigger] self@.groups[k]).group_id == g@.group_id && holds(
                                inner@,
                                self@,
                                self@.groups[k],
                            )),
                    decreases self.groups.len() - j,
                {
                    assert(self@.groups[j as int] == self.groups@[j as int]@);
                    assert(decreases_to!(*c => c->GroupIdInGroups_0));
                    if self.groups[j].group_id.0 == g.group_id.0 && self.eval(inner, &self.groups[j]) {
                        return true;
                    }
                    j += 1;
                }
                false
            },
        }
    }

    /// Deletes the group `id` and, with it, the attribute and membership
    /// rows that belong to it. The number of group rows deleted comes back.
    pub fn delete_group_rows(&mut self, id: GroupId) -> (deleted: usize)
        requires
            old(self)@.wf(),
        ensures
            final(self)@ == without_group(old(self)@, id),
            final(self)@.wf(),
            deleted == 0 <==> !old(self)@.has_group(id),
    {
        let ghost t = self@;
        let deleted = remove_owned(&mut self.groups, id);
        remove_owned(&mut self.attributes, id);
        remove_owned(&mut self.memberships, id);
        proof {
            lemma_without_group_wf(t, id);
            crate::seqs::lemma_filter_places(t.groups, group_not(id));
            if t.has_group(id) {
                let k = choose|k: int| 0 <= k < t.groups.len() && (#[trigger] t.groups[k]).group_id == id;
                if deleted == 0 {
                    assert(t.groups.filter(group_not(id)).len() == t.groups.len());
                    lemma_filter_len_all(t.groups, group_not(id));
                    assert(group_not(id)(t.groups[k]));
                }
            } else {
                assert forall|i: int| 0 <= i < t.groups.len() implies group_not(id)(#[trigger] t.groups[i]) by {}
                lemma_filter_all(t.groups, group_not(id));
            }
        }
        deleted
    }

    /// The attribute rows of the group `id`, in the order of their names.
    pub fn rows_of(&self, id: GroupId) -> (rows: Vec<AttributeRow>)
        ensures
            views(rows@) == crate::merge::rows_of_group(self@.attributes, id),
    {
        let ghost pred = crate::merge::in_group(id);
        let ghost all = self@.attributes;
        let mut rows: Vec<AttributeRow> = Vec::new();
        let mut i: usize = 0;
        assert(all.take(0).filter(pred) =~= Seq::<AttributeRowView>::empty()) by {
            reveal(Seq::filter);
        }
        assert(views(rows@) =~= Seq::<AttributeRowView>::empty());
        while i < self.attributes.len()
            invariant
                i <= self.attributes.len(),
                all == self@.attributes,
                pred == crate::merge::in_group(id),
                views(rows@) == all.take(i as int).filter(pred),
            decreases self.attributes.len() - i,
        {
            let row = &self.attributes[i];
            proof {
                assert(all.take(i + 1) =~= all.take(i as int).push(row@));
                all.take(i as int).lemma_filter_push(row@, pred);
            }
            if row.group_id.0 == id.0 {
                let copy = AttributeRow {
                    group_id: row.group_id,
                    attribute_name: row.attribute_name.clone(),
                    value: vstd::slice::slice_to_vec(row.value.as_slice()),
                };
                assert(views(rows@.push(copy)) =~= views(rows@).push(copy@));
                rows.push(copy);
            }
            i += 1;
        }
        assert(all.take(i as int) =~= all);
        rows
    }

    /// The place of a group with this lower-case display name.
    pub fn find_by_lowercase_name(&self, lowercase_display_name: &str) -> (r: Option<usize>)
        ensures
            match r {
                Some(i) => {
                    &&& i < self@.groups.len()
                    &&& self@.groups[i as int].lowercase_display_name == lowercase_display_name@
                    &&& forall|j: int|
                        0 <= j < i ==> (#[trigger] self@.groups[j]).lowercase_display_name
                            != lowercase_display_name@
                },
                None => !self@.name_taken(lowercase_display_name@),
            },
    {
        let mut i: usize = 0;
        while i < self.groups.len()
            invariant
                i <= self.groups.len(),
                forall|j: int|
                    0 <= j < i ==> (#[trigger] self@.groups[j]).lowercase_display_name != lowercase_display_name@,
            decreases self.groups.len() - i,
        {
            if str_eq(self.groups[i].lowercase_display_name.as_str(), lowercase_display_name) {
                return Some(i);
            }
            i += 1;
        }
        None
    }

    /// Whether a group has this uuid.
    pub fn has_uuid(&self, uuid: &str) -> (r: bool)
        ensures
            r == self@.uuid_taken(uuid@),
    {
        let mut i: usize = 0;
        while i < self.groups.len()
            invariant
                i <= self.groups.len(),
                forall|j: int| 0 <= j < i ==> (#[trigger] self@.groups[j]).uuid != uuid@,
            decreases self.groups.len() - i,
        {
            if str_eq(self.groups[i].uuid.as_str(), uuid) {
                assert(self@.groups[i as int].uuid == uuid@);
                return true;
            }
            i += 1;
        }
        false
    }

    /// Adds the row of a new group, which takes the next id.
    pub fn insert_group(&mut self, row: GroupRow)
        requires
            old(self)@.wf(),
            row@.group_id.0 == old(self)@.next_group_id,
            old(self)@.next_group_id < i32::MAX,
            row@.lowercase_display_name == crate::text::lowercase_of(row@.display_name),
            !old(self)@.name_taken(row@.lowercase_display_name),
            !old(self)@.uuid_taken(row@.uuid),
        ensures
            final(self)@.wf(),
            final(self)@.groups == old(self)@.groups.push(row@),
            final(self)@.attributes == old(self)@.attributes,
            final(self)@.memberships == old(self)@.memberships,
            final(self)@.next_group_id == old(self)@.next_group_id + 1,
    {
        let ghost t = self@;
        let ghost r = row@;
        self.groups.push(row);
        self.next_group_id = self.next_group_id + 1;
        proof {
            let t2 = self@;
            assert(t2.groups =~= t.groups.push(r));
            assert forall|i: int, j: int| 0 <= i < j < t2.groups.len() implies {
                &&& (#[trigger] t2.groups[i]).group_id.0 < (#[trigger] t2.groups[j]).group_id.0
                &&& t2.groups[i].lowercase_display_name != t2.groups[j].lowercase_display_name
                &&& t2.groups[i].uuid != t2.groups[j].uuid
            } by {
                if j < t.groups.len() {
                    assert(t.groups[i].group_id.0 < t.groups[j].group_id.0);
                } else {
                    assert(t.groups[i].group_id.0 < t.next_group_id);
                }
            }
            assert forall|x: int| 0 <= x < t2.attributes.len() implies t2.has_group(
                (#[trigger] t2.attributes[x]).group_id,
            ) by {
                lemma_more_groups(t, t2, t.attributes[x].group_id);
            }
            assert forall|x: int| 0 <= x < t2.memberships.len() implies t2.has_group(
                (#[trigger] t2.memberships[x]).group_id,
            ) by {
                lemma_more_groups(t, t2, t.memberships[x].group_id);
            }
            assert forall|i: int| 0 <= i < t2.groups.len() implies (#[trigger] t2.groups[i]).group_id.0
                < t2.next_group_id by {
                if i < t.groups.len() {
                    assert(t.groups[i].group_id.0 < t.next_group_id);
                }
            }
            assert(t2.groups_ordered());
            assert forall|i: int| 0 <= i < t2.groups.len() implies (#[trigger] t2.groups[i]).lowercase_display_name
                == crate::text::lowercase_of(t2.groups[i].display_name) by {
                if i < t.groups.len() {
                    assert(t.groups[i].lowercase_display_name == crate::text::lowercase_of(t.groups[i].display_name));
                }
            }
            assert(t2.names_folded());
            assert(t2.groups_unique());
            assert(t2.attributes == t.attributes);
            assert(t2.attributes_ordered());
            assert(t2.rows_owned());
        }
    }

    /// Stores the rows one after the other, each in place of the row with
    /// its key where there is one.
    pub fn upsert_rows(&mut self, rows: Vec<AttributeRow>)
        requires
            old(self)@.wf(),
            forall|i: int| 0 <= i < rows@.len() ==> old(self)@.has_group((#[trigger] rows@[i])@.group_id),
        ensures
            final(self)@.wf(),
            final(self)@.groups == old(self)@.groups,
            final(self)@.memberships == old(self)@.memberships,
            final(self)@.next_group_id == old(self)@.next_group_id,
            final(self)@.attribute_map() == with_rows(old(self)@.attribute_map(), views(rows@)),
    {
        let ghost t = self@;
        let ghost all = views(rows@);
        let mut rest = rows;
        let n = rest.len();
        let mut i: usize = 0;
        assert(all.take(0) =~= Seq::<AttributeRowView>::empty());
        while i < n
            invariant
                i <= n,
                n == all.len(),
                all == views(rows@),
                rest@.len() == n - i,
                views(rest@) == all.skip(i as int),
                self@.wf(),
                self@.groups == t.groups,
                self@.memberships == t.memberships,
                self@.next_group_id == t.next_group_id,
                forall|j: int| 0 <= j < all.len() ==> t.has_group((#[trigger] all[j]).group_id),
                self@.attribute_map() == with_rows(t.attribute_map(), all.take(i as int)),
            decreases n - i,
        {
            let ghost before = rest@;
            let row = rest.remove(0);
            proof {
                assert(views(before)[0] == before[0]@);
                assert(all.skip(i as int)[0] == all[i as int]);
                assert(row@ == all[i as int]);
                assert forall|k: int| 0 <= k < rest@.len() implies views(rest@)[k] == all.skip(i + 1)[k] by {
                    assert(rest@[k] == before[k + 1]);
                    assert(views(before)[k + 1] == before[k + 1]@);
                    assert(all.skip(i as int)[k + 1] == all[i + k + 1]);
                }
                assert(views(rest@) =~= all.skip(i + 1));
                assert(t.has_group(all[i as int].group_id));
                lemma_same_groups(t, self@, row@.group_id);
                assert(all.take(i + 1).drop_last() =~= all.take(i as int));
                assert(all.take(i + 1).last() == all[i as int]);
            }
            self.upsert_attribute(row);
            i += 1;
        }
        assert(all.take(n as int) =~= all);
    }

    /// Whether a group other than `id` has this lower-case display name.
    pub fn name_taken_by_other(&self, id: GroupId, lowercase_display_name: &str) -> (r: bool)
        ensures
            r == self@.name_taken_by_other(id, lowercase_display_name@),
    {
        let mut i: usize = 0;
        while i < self.groups.len()
            invariant
                i <= self.groups.len(),
                forall|j: int|
                    0 <= j < i ==> !((#[trigger] self@.groups[j]).lowercase_display_name == lowercase_display_name@
                        && self@.groups[j].group_id != id),
            decreases self.groups.len() - i,
        {
            assert(self@.groups[i as int] == self.groups@[i as int]@);
            if self.groups[i].group_id.0 != id.0 && str_eq(
                self.groups[i].lowercase_display_name.as_str(),
                lowercase_display_name,
            ) {
                return true;
            }
            i += 1;
        }
        false
    }

    /// Gives the group at the place `i` a new display name.
    pub fn rename_group(&mut self, i: usize, display_name: String)
        requires
            old(self)@.wf(),
            i < old(self)@.groups.len(),
            !old(self)@.name_taken_by_other(old(self)@.groups[i as int].group_id, lowercase_of(display_name@)),
        ensures
            final(self)@.wf(),
            final(self)@.groups == renamed_in(
                old(self)@.groups,
                old(self)@.groups[i as int].group_id,
                Some(display_name@),
            ),
            final(self)@.attributes == old(self)@.attributes,
            final(self)@.memberships == old(self)@.memberships,
            final(self)@.next_group_id == old(self)@.next_group_id,
    {
        let ghost t = self@;
        let ghost id = t.groups[i as int].group_id;
        let ghost name = display_name@;
        let lowercase_display_name = lowercase(display_name.as_str());
        let row = self.groups.remove(i);
        assert(row@ == t.groups[i as int]);
        let new = GroupRow { display_name, lowercase_display_name, ..row };
        assert(new@ == renamed(t.groups[i as int], Some(name)));
        self.groups.insert(i, new);
        proof {
            let t2 = self@;
            let g2 = renamed_in(t.groups, id, Some(name));
            assert forall|k: int| 0 <= k < t.groups.len() implies t2.groups[k] == g2[k] by {
                if k != i {
                    if k < i {
                        assert(t.groups[k].group_id.0 < t.groups[i as int].group_id.0);
                    } else {
                        assert(t.groups[i as int].group_id.0 < t.groups[k].group_id.0);
                    }
                }
            }
            assert(t2.groups =~= g2);
            assert forall|a: int, b: int| 0 <= a < b < t2.groups.len() implies {
                &&& (#[trigger] t2.groups[a]).group_id.0 < (#[trigger] t2.groups[b]).group_id.0
                &&& t2.groups[a].lowercase_display_name != t2.groups[b].lowercase_display_name
                &&& t2.groups[a].uuid != t2.groups[b].uuid
            } by {
                assert(t.groups[a].group_id.0 < t.groups[b].group_id.0);
                assert(t.groups[a].uuid != t.groups[b].uuid);
                assert(t.groups[a].lowercase_display_name != t.groups[b].lowercase_display_name);
            }
            assert forall|k: int| 0 <= k < t2.groups.len() implies {
                &&& (#[trigger] t2.groups[k]).group_id.0 < t2.next_group_id
                &&& t2.groups[k].lowercase_display_name == lowercase_of(t2.groups[k].display_name)
            } by {
                assert(t.groups[k].group_id.0 < t.next_group_id);
                assert(t.groups[k].lowercase_display_name == lowercase_of(t.groups[k].display_name));
            }
            assert(t2.groups_ordered());
            assert(t2.names_folded());
            assert(t2.groups_unique());
            assert(t2.attributes == t.attributes);
            assert(t2.memberships == t.memberships);
            assert forall|x: int| 0 <= x < t2.attributes.len() implies t2.has_group(
                (#[trigger] t2.attributes[x]).group_id,
            ) by {
                lemma_same_ids(t, t2, t.attributes[x].group_id);
            }
            assert forall|x: int| 0 <= x < t2.memberships.len() implies t2.has_group(
                (#[trigger] t2.memberships[x]).group_id,
            ) by {
                lemma_same_ids(t, t2, t.memberships[x].group_id);
            }
        }
    }

    /// Removes, for each of the names, the row of the attribute with that
    /// name of the group `id`, if there is one.
    pub fn remove_attributes(&mut self, id: GroupId, names: &Vec<String>)
        requires
            old(self)@.wf(),
        ensures
            final(self)@.wf(),
            final(self)@.groups == old(self)@.groups,
            final(self)@.memberships == old(self)@.memberships,
            final(self)@.next_group_id == old(self)@.next_group_id,
            final(self)@.attribute_map() == old(self)@.attribute_map().remove_keys(
                keys_of_names(id, views(names@)),
            ),
    {
        let ghost t = self@;
        let ghost all = views(names@);
        let mut i: usize = 0;
        assert(t.attribute_map().remove_keys(keys_of_names(id, all.take(0))) =~= t.attribute_map());
        while i < names.len()
            invariant
                i <= names.len(),
                all == views(names@),
                self@.wf(),
                self@.groups == t.groups,
                self@.memberships == t.memberships,
                self@.next_group_id == t.next_group_id,
                self@.attribute_map() == t.attribute_map().remove_keys(keys_of_names(id, all.take(i as int))),
            decreases names.len() - i,
        {
            let ghost m = self@.attribute_map();
            self.remove_attribute(id, names[i].as_str());
            proof {
                let done = all.take(i as int);
                let next = all.take(i + 1);
                let k = (id, all[i as int]);
                assert(next =~= done.push(all[i as int]));
                assert forall|q: AttributeKey| keys_of_names(id, next).contains(q) == (keys_of_names(id, done).contains(q)
                    || q == k) by {
                    if q.0 == id {
                        if next.contains(q.1) {
                            let x = choose|x: int| 0 <= x < next.len() && next[x] == q.1;
                            if x < i {
                                assert(done[x] == q.1);
                            }
                        }
                        if done.contains(q.1) {
                            let x = choose|x: int| 0 <= x < done.len() && done[x] == q.1;
                            assert(next[x] == q.1);
                        }
                        if q == k {
                            assert(next[i as int] == q.1);
                        }
                    }
                }
                assert(m.remove(k) =~= t.attribute_map().remove_keys(keys_of_names(id, next)));
            }
            i += 1;
        }
        assert(all.take(i as int) =~= all);
    }

    /// The users that are members of the group `id`.
    pub fn users_of(&self, id: GroupId) -> (users: Vec<String>)
        ensures
            views(users@) == users_of(self@, id),
    {
        let ghost pred = membership_of(id);
        let ghost all = self@.memberships;
        let ghost name = |m: MembershipRowView| m.user_id;
        let mut users: Vec<String> = Vec::new();
        let mut i: usize = 0;
        assert(all.take(0).filter(pred) =~= Seq::<MembershipRowView>::empty()) by {
            reveal(Seq::filter);
        }
        assert(views(users@) =~= all.take(0).filter(pred).map_values(name));
        while i < self.memberships.len()
            invariant
                i <= self.memberships.len(),
                all == self@.memberships,
                pred == membership_of(id),
                name == |m: MembershipRowView| m.user_id,
                views(users@) == all.take(i as int).filter(pred).map_values(name),
            decreases self.memberships.len() - i,
        {
            let row = &self.memberships[i];
            proof {
                assert(all.take(i + 1) =~= all.take(i as int).push(row@));
                all.take(i as int).lemma_filter_push(row@, pred);
            }
            if row.group_id.0 == id.0 {
                let user = row.user_id.clone();
                assert(views(users@.push(user)) =~= views(users@).push(user@));
                assert(all.take(i as int).filter(pred).push(row@).map_values(name) =~= all.take(i as int).filter(
                    pred,
                ).map_values(name).push(row@.user_id));
                users.push(user);
            }
            i += 1;
        }
        assert(all.take(i as int) =~= all);
        users
    }

    /// The groups of which the condition `c` holds, in the order of their
    /// ids, each with its members and without attributes.
    pub fn select_groups(&self, c: &Condition) -> (groups: Vec<Group>)
        ensures
            views(groups@) == selected(self@, c@).map_values(bare_of(self@)),
    {
        let ghost pred = satisfies(c@, self@);
        let ghost all = self@.groups;
        let ghost bare = bare_of(self@);
        let mut groups: Vec<Group> = Vec::new();
        let mut i: usize = 0;
        assert(all.take(0).filter(pred) =~= Seq::<GroupRowView>::empty()) by {
            reveal(Seq::filter);
        }
        assert(views(groups@) =~= all.take(0).filter(pred).map_values(bare));
        while i < self.groups.len()
            invariant
                i <= self.groups.len(),
                all == self@.groups,
                pred == satisfies(c@, self@),
                bare == bare_of(self@),
                views(groups@) == all.take(i as int).filter(pred).map_values(bare),
            decreases self.groups.len() - i,
        {
            let row = &self.groups[i];
            proof {
                assert(all.take(i + 1) =~= all.take(i as int).push(row@));
                all.take(i as int).lemma_filter_push(row@, pred);
            }
            if self.eval(c, row) {
                let group = Group {
                    id: row.group_id,
                    display_name: row.display_name.clone(),
                    creation_date: row.creation_date,
                    uuid: row.uuid.clone(),
                    users: self.users_of(row.group_id),
                    attributes: Vec::new(),
                };
                assert(group@ == bare_group(self@, row@)) by {
                    assert(views(group.attributes@) =~= Seq::<AttributeView>::empty());
                }
                assert(views(groups@.push(group)) =~= views(groups@).push(group@));
                assert(all.take(i as int).filter(pred).push(row@).map_values(bare) =~= all.take(i as int).filter(
                    pred,
                ).map_values(bare).push(bare_group(self@, row@)));
                groups.push(group);
            }
            i += 1;
        }
        assert(all.take(i as int) =~= all);
        groups
    }

    /// The attribute rows of the groups of which the condition `c` holds,
    /// in the order of group ids and attribute names.
    pub fn select_attributes(&self, c: &Condition) -> (rows: Vec<AttributeRow>)
        ensures
            views(rows@) == selected_rows(self@, c@),
    {
        let ghost pred = row_selected(c@, self@);
        let ghost all = self@.attributes;
        let mut rows: Vec<AttributeRow> = Vec::new();
        let mut i: usize = 0;
        assert(all.take(0).filter(pred) =~= Seq::<AttributeRowView>::empty()) by {
            reveal(Seq::filter);
        }
        assert(views(rows@) =~= Seq::<AttributeRowView>::empty());
        while i < self.attributes.len()
            invariant
                i <= self.attributes.len(),
                all == self@.attributes,
                pred == row_selected(c@, self@),
                views(rows@) == all.take(i as int).filter(pred),
            decreases self.attributes.len() - i,
        {
            let row = &self.attributes[i];
            proof {
                assert(all.take(i + 1) =~= all.take(i as int).push(row@));
                all.take(i as int).lemma_filter_push(row@, pred);
            }
            if self.group_selected(c, row.group_id) {
                let copy = AttributeRow {
                    group_id: row.group_id,
                    attribute_name: row.attribute_name.clone(),
                    value: vstd::slice::slice_to_vec(row.value.as_slice()),
                };
                assert(views(rows@.push(copy)) =~= views(rows@).push(copy@));
                rows.push(copy);
            }
            i += 1;
        }
        assert(all.take(i as int) =~= all);
        rows
    }

    /// Whether the condition `c` holds of a group row with the id `id`.
    pub fn group_selected(&self, c: &Condition, id: GroupId) -> (r: bool)
        ensures
            r == group_selected(c@, self@, id),
    {
        let mut i: usize = 0;
        while i < self.groups.len()
            invariant
                i <= self.groups.len(),
                forall|j: int|
                    0 <= j < i ==> !((#[trigger] self@.groups[j]).group_id == id && holds(c@, self@, self@.groups[j])),
            decreases self.groups.len() - i,
        {
            assert(self@.groups[i as int] == self.groups@[i as int]@);
            if self.groups[i].group_id.0 == id.0 && self.eval(c, &self.groups[i]) {
                return true;
            }
            i += 1;
        }
        false
    }

    /// Adds a membership row.
    pub fn insert_membership(&mut self, user_id: String, group_id: GroupId)
        requires
            old(self)@.wf(),
            old(self)@.has_group(group_id),
        ensures
            final(self)@.wf(),
            final(self)@ == (TablesView {
                memberships: old(self)@.memberships.push(MembershipRowView { user_id: user_id@, group_id }),
                ..old(self)@
            }),
    {
        let ghost t = self@;
        let ghost row = MembershipRowView { user_id: user_id@, group_id };
        self.memberships.push(MembershipRow { user_id, group_id });
        proof {
            let t2 = self@;
            assert(t2.memberships =~= t.memberships.push(row));
            assert(t2.groups == t.groups);
            assert(t2.attributes == t.attributes);
            assert forall|x: int| 0 <= x < t2.attributes.len() implies t2.has_group(
                (#[trigger] t2.attributes[x]).group_id,
            ) by {
                assert(t.has_group(t.attributes[x].group_id));
                lemma_same_groups(t, t2, t2.attributes[x].group_id);
            }
            assert forall|x: int| 0 <= x < t2.memberships.len() implies t2.has_group(
                (#[trigger] t2.memberships[x]).group_id,
            ) by {
                if x < t.memberships.len() {
                    assert(t.has_group(t.memberships[x].group_id));
                }
                lemma_same_groups(t, t2, t2.memberships[x].group_id);
            }
        }
    }
}

} // verus!
