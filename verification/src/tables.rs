//! The three tables that hold the groups, and what conditions and filters
//! mean on them.
use vstd::prelude::*;
use crate::codec::encode_value;
use crate::condition::ConditionView;
use crate::filter::{FilterView, compiled, sql_pattern};
use crate::pattern::like_matches;
use crate::text::{lemma_text_less_irreflexive, lemma_text_less_total, lemma_text_less_transitive, lowercase_of, text_less};
use crate::seqs::{in_order, lemma_filter_all, lemma_filter_places, occurs, stand_at, stands_at};
use crate::types::{GroupId, Timestamp};

verus! {

/// A row of the group table.
#[derive(Clone, Debug, PartialEq, Eq)]
pub struct GroupRow {
    pub group_id: GroupId,
    pub display_name: String,
    pub lowercase_display_name: String,
    pub creation_date: Timestamp,
    pub uuid: String,
}

/// The mathematical value of a `GroupRow`.
pub struct GroupRowView {
    pub group_id: GroupId,
    pub display_name: Seq<char>,
    pub lowercase_display_name: Seq<char>,
    pub creation_date: Timestamp,
    pub uuid: Seq<char>,
}

impl View for GroupRow {
    type V = GroupRowView;

    open spec fn view(&self) -> GroupRowView {
        GroupRowView {
            group_id: self.group_id,
            display_name: self.display_name@,
            lowercase_display_name: self.lowercase_display_name@,
            creation_date: self.creation_date,
            uuid: self.uuid@,
        }
    }
}

/// A row of the attribute table: the stored value of one attribute of one
/// group.
#[derive(Clone, Debug, PartialEq, Eq)]
pub struct AttributeRow {
    pub group_id: GroupId,
    pub attribute_name: String,
    pub value: Vec<u8>,
}

/// The mathematical value of an `AttributeRow`.
pub struct AttributeRowView {
    pub group_id: GroupId,
    pub attribute_name: Seq<char>,
    pub value: Seq<u8>,
}

impl View for AttributeRow {
    type V = AttributeRowView;

    open spec fn view(&self) -> AttributeRowView {
        AttributeRowView { group_id: self.group_id, attribute_name: self.attribute_name@, value: self.value@ }
    }
}

/// A row of the membership table: a user is a member of a group.
#[derive(Clone, Debug, PartialEq, Eq)]
pub struct MembershipRow {
    pub user_id: String,
    pub group_id: GroupId,
}

/// The mathematical value of a `MembershipRow`.
pub struct MembershipRowView {
    pub user_id: Seq<char>,
    pub group_id: GroupId,
}

impl View for MembershipRow {
    type V = MembershipRowView;

    open spec fn view(&self) -> MembershipRowView {
        MembershipRowView { user_id: self.user_id@, group_id: self.group_id }
    }
}

/// The test that a group row is not the one of the group `id`.
pub open spec fn group_not(id: GroupId) -> spec_fn(GroupRowView) -> bool {
    |g: GroupRowView| g.group_id != id
}

/// The test that an attribute row does not belong to the group `id`.
pub open spec fn attribute_not_of(id: GroupId) -> spec_fn(AttributeRowView) -> bool {
    |a: AttributeRowView| a.group_id != id
}

/// The test that a membership row does not belong to the group `id`.
pub open spec fn membership_not_of(id: GroupId) -> spec_fn(MembershipRowView) -> bool {
    |m: MembershipRowView| m.group_id != id
}

/// The contents of the three tables, and the id that the next group gets.
pub struct TablesView {
    pub groups: Seq<GroupRowView>,
    pub attributes: Seq<AttributeRowView>,
    pub memberships: Seq<MembershipRowView>,
    pub next_group_id: int,
}

/// What identifies an attribute row: the group and the attribute's name.
pub type AttributeKey = (GroupId, Seq<char>);

/// The key of an attribute row.
pub open spec fn key_of(r: AttributeRowView) -> AttributeKey {
    (r.group_id, r.attribute_name)
}

/// Whether the key `a` comes before `b`: by group id, then by attribute
/// name.
pub open spec fn key_before(a: AttributeKey, b: AttributeKey) -> bool {
    a.0.0 < b.0.0 || (a.0 == b.0 && text_less(a.1, b.1))
}

/// Whether the attribute row `a` comes before `b`: by group id, then by
/// attribute name.
pub open spec fn row_before(a: AttributeRowView, b: AttributeRowView) -> bool {
    key_before(key_of(a), key_of(b))
}

/// The order of keys is transitive.
pub proof fn lemma_key_before_transitive(a: AttributeKey, b: AttributeKey, c: AttributeKey)
    requires
        key_before(a, b),
        key_before(b, c),
    ensures
        key_before(a, c),
{
    if a.0 == b.0 && b.0 == c.0 {
        lemma_text_less_transitive(a.1, b.1, c.1);
    }
}

/// Two different keys are ordered one way or the other, and no key comes
/// before itself.
pub proof fn lemma_key_before_total(a: AttributeKey, b: AttributeKey)
    ensures
        a == b || key_before(a, b) || key_before(b, a),
        !key_before(a, a),
{
    lemma_text_less_total(a.1, b.1);
    lemma_text_less_irreflexive(a.1);
}

impl TablesView {
    /// Whether a group with this id exists.
    pub open spec fn has_group(self, id: GroupId) -> bool {
        exists|i: int| 0 <= i < self.groups.len() && (#[trigger] self.groups[i]).group_id == id
    }

    /// The group rows stand in the order of their ids, which are all below
    /// the next id to be given.
    pub open spec fn groups_ordered(self) -> bool {
        &&& forall|i: int, j: int|
            0 <= i < j < self.groups.len() ==> (#[trigger] self.groups[i]).group_id.0 < (
            #[trigger] self.groups[j]).group_id.0
        &&& forall|i: int| 0 <= i < self.groups.len() ==> (#[trigger] self.groups[i]).group_id.0 < self.next_group_id
        &&& self.next_group_id <= i32::MAX
    }

    /// Every group row holds the lower-case form of its display name.
    pub open spec fn names_folded(self) -> bool {
        forall|i: int|
            0 <= i < self.groups.len() ==> (#[trigger] self.groups[i]).lowercase_display_name == lowercase_of(
                self.groups[i].display_name,
            )
    }

    /// No two groups share a lower-case display name, and no two a uuid.
    pub open spec fn groups_unique(self) -> bool {
        forall|i: int, j: int|
            0 <= i < j < self.groups.len() ==> {
                &&& (#[trigger] self.groups[i]).lowercase_display_name != (
                #[trigger] self.groups[j]).lowercase_display_name
                &&& self.groups[i].uuid != self.groups[j].uuid
            }
    }

    /// The attribute rows stand in order of group id and attribute name, so a
    /// group has at most one row for a name.
    pub open spec fn attributes_ordered(self) -> bool {
        forall|i: int, j: int|
            0 <= i < j < self.attributes.len() ==> row_before(#[trigger] self.attributes[i], #[trigger] self.attributes[j])
    }

    /// Attribute and membership rows belong to groups that exist.
    pub open spec fn rows_owned(self) -> bool {
        &&& forall|i: int| 0 <= i < self.attributes.len() ==> self.has_group((#[trigger] self.attributes[i]).group_id)
        &&& forall|i: int| 0 <= i < self.memberships.len() ==> self.has_group((#[trigger] self.memberships[i]).group_id)
    }

    /// Whether a group has this lower-case display name.
    pub open spec fn name_taken(self, lowercase_display_name: Seq<char>) -> bool {
        exists|i: int|
            0 <= i < self.groups.len() && (#[trigger] self.groups[i]).lowercase_display_name
                == lowercase_display_name
    }

    /// Whether a group other than `id` has this lower-case display name.
    pub open spec fn name_taken_by_other(self, id: GroupId, lowercase_display_name: Seq<char>) -> bool {
        exists|i: int|
            0 <= i < self.groups.len() && (#[trigger] self.groups[i]).lowercase_display_name
                == lowercase_display_name && self.groups[i].group_id != id
    }

    /// Whether a group has this uuid.
    pub open spec fn uuid_taken(self, uuid: Seq<char>) -> bool {
        exists|i: int| 0 <= i < self.groups.len() && (#[trigger] self.groups[i]).uuid == uuid
    }

    /// Whether a row with this key exists.
    pub open spec fn has_key(self, k: AttributeKey) -> bool {
        exists|i: int| 0 <= i < self.attributes.len() && key_of(#[trigger] self.attributes[i]) == k
    }

    /// The attribute table as a map from keys to stored values.
    pub open spec fn attribute_map(self) -> Map<AttributeKey, Seq<u8>> {
        Map::new(
            |k: AttributeKey| self.has_key(k),
            |k: AttributeKey|
                self.attributes[choose|i: int|
                    0 <= i < self.attributes.len() && key_of(#[trigger] self.attributes[i]) == k].value,
        )
    }

    /// The constraints that the tables keep at all times.
    pub open spec fn wf(self) -> bool {
        &&& self.groups_ordered()
        &&& self.names_folded()
        &&& self.groups_unique()
        &&& self.attributes_ordered()
        &&& self.rows_owned()
    }

    /// Whether the user is a member of the group.
    pub open spec fn is_member(self, user_id: Seq<char>, group_id: GroupId) -> bool {
        exists|j: int|
            0 <= j < self.memberships.len() && (#[trigger] self.memberships[j]).user_id == user_id
                && self.memberships[j].group_id == group_id
    }

    /// Whether the group has a row for the attribute `name` and, where
    /// `value` is given, with that stored value.
    pub open spec fn has_attribute(self, group_id: GroupId, name: Seq<char>, value: Option<Seq<u8>>) -> bool {
        exists|j: int|
            0 <= j < self.attributes.len() && (#[trigger] self.attributes[j]).group_id == group_id
                && self.attributes[j].attribute_name == name && (value matches Some(v)
                ==> self.attributes[j].value == v)
    }
}

/// The tables without the group `id` and without the rows that belong to it.
pub open spec fn without_group(t: TablesView, id: GroupId) -> TablesView {
    TablesView {
        groups: t.groups.filter(group_not(id)),
        attributes: t.attributes.filter(attribute_not_of(id)),
        memberships: t.memberships.filter(membership_not_of(id)),
        next_group_id: t.next_group_id,
    }
}

/// Taking a group away with its rows keeps the tables well-formed.
pub proof fn lemma_without_group_wf(t: TablesView, id: GroupId)
    requires
        t.wf(),
    ensures
        without_group(t, id).wf(),
        !without_group(t, id).has_group(id),
{
    let t2 = without_group(t, id);
    lemma_filter_places(t.groups, group_not(id));
    lemma_filter_places(t.attributes, attribute_not_of(id));
    lemma_filter_places(t.memberships, membership_not_of(id));
    assert forall|i: int, j: int| 0 <= i < j < t2.groups.len() implies {
        &&& (#[trigger] t2.groups[i]).group_id.0 < (#[trigger] t2.groups[j]).group_id.0
        &&& t2.groups[i].lowercase_display_name != t2.groups[j].lowercase_display_name
        &&& t2.groups[i].uuid != t2.groups[j].uuid
    } by {
        assert(in_order(t.groups, t2.groups[i], t2.groups[j]));
        let (k, l) = choose|k: int, l: int| stand_at(t.groups, t2.groups[i], t2.groups[j], k, l);
        assert(t.groups[k].group_id.0 < t.groups[l].group_id.0);
    }
    assert forall|i: int| 0 <= i < t2.groups.len() implies {
        &&& (#[trigger] t2.groups[i]).group_id.0 < t2.next_group_id
        &&& t2.groups[i].lowercase_display_name == lowercase_of(t2.groups[i].display_name)
        &&& t2.groups[i].group_id != id
    } by {
        assert(occurs(t.groups, t2.groups[i]));
        let k = choose|k: int| stands_at(t.groups, t2.groups[i], k);
        assert(group_not(id)(t2.groups[i]));
        assert(t.groups[k].group_id.0 < t.next_group_id);
    }
    assert forall|i: int, j: int| 0 <= i < j < t2.attributes.len() implies row_before(
        #[trigger] t2.attributes[i],
        #[trigger] t2.attributes[j],
    ) by {
        assert(in_order(t.attributes, t2.attributes[i], t2.attributes[j]));
        let (k, l) = choose|k: int, l: int| stand_at(t.attributes, t2.attributes[i], t2.attributes[j], k, l);
        assert(row_before(t.attributes[k], t.attributes[l]));
    }
    assert forall|i: int| 0 <= i < t2.attributes.len() implies t2.has_group((#[trigger] t2.attributes[i]).group_id) by {
        assert(occurs(t.attributes, t2.attributes[i]));
        let k = choose|k: int| stands_at(t.attributes, t2.attributes[i], k);
        assert(attribute_not_of(id)(t2.attributes[i]));
        assert(t.has_group(t.attributes[k].group_id));
        lemma_group_kept(t, id, t.attributes[k].group_id);
    }
    assert forall|i: int| 0 <= i < t2.memberships.len() implies t2.has_group(
        (#[trigger] t2.memberships[i]).group_id,
    ) by {
        assert(occurs(t.memberships, t2.memberships[i]));
        let k = choose|k: int| stands_at(t.memberships, t2.memberships[i], k);
        assert(membership_not_of(id)(t2.memberships[i]));
        assert(t.has_group(t.memberships[k].group_id));
        lemma_group_kept(t, id, t.memberships[k].group_id);
    }
}

/// Taking away a group that does not exist leaves the tables as they are.
pub proof fn lemma_without_group_same(t: TablesView, id: GroupId)
    requires
        t.wf(),
        !t.has_group(id),
    ensures
        without_group(t, id) == t,
{
    let t2 = without_group(t, id);
    lemma_filter_places(t.groups, group_not(id));
    lemma_filter_places(t.attributes, attribute_not_of(id));
    lemma_filter_places(t.memberships, membership_not_of(id));
    lemma_filter_all(t.groups, group_not(id));
    assert forall|i: int| 0 <= i < t.attributes.len() implies attribute_not_of(id)(#[trigger] t.attributes[i]) by {
        assert(t.has_group(t.attributes[i].group_id));
    }
    lemma_filter_all(t.attributes, attribute_not_of(id));
    assert forall|i: int| 0 <= i < t.memberships.len() implies membership_not_of(id)(#[trigger] t.memberships[i]) by {
        assert(t.has_group(t.memberships[i].group_id));
    }
    lemma_filter_all(t.memberships, membership_not_of(id));
}

/// Taking the group `id` away leaves every other group.
pub proof fn lemma_group_kept(t: TablesView, id: GroupId, other: GroupId)
    requires
        t.has_group(other),
        other != id,
    ensures
        without_group(t, id).has_group(other),
{
    let t2 = without_group(t, id);
    lemma_filter_places(t.groups, group_not(id));
    let k = choose|k: int| 0 <= k < t.groups.len() && (#[trigger] t.groups[k]).group_id == other;
    assert(group_not(id)(t.groups[k]));
    assert(t2.groups.contains(t.groups[k]));
    let i = choose|i: int| 0 <= i < t2.groups.len() && t2.groups[i] == t.groups[k];
    assert(t2.groups[i].group_id == other);
}

/// The group row with a new display name, if one is given: the lower-case
/// form follows the name, the rest stays.
pub open spec fn renamed(g: GroupRowView, display_name: Option<Seq<char>>) -> GroupRowView {
    match display_name {
        Some(n) => GroupRowView { display_name: n, lowercase_display_name: lowercase_of(n), ..g },
        None => g,
    }
}

/// The group rows with the group `id` renamed.
pub open spec fn renamed_in(groups: Seq<GroupRowView>, id: GroupId, display_name: Option<Seq<char>>) -> Seq<
    GroupRowView,
> {
    groups.map_values(
        |g: GroupRowView|
            if g.group_id == id {
                renamed(g, display_name)
            } else {
                g
            },
    )
}

/// The map `m` after the rows have been stored in it one after the other:
/// a later row takes the place of an earlier one with the same key.
pub open spec fn with_rows(m: Map<AttributeKey, Seq<u8>>, rows: Seq<AttributeRowView>) -> Map<AttributeKey, Seq<u8>>
    decreases rows.len(),
{
    if rows.len() == 0 {
        m
    } else {
        with_rows(m, rows.drop_last()).insert(key_of(rows.last()), rows.last().value)
    }
}

/// The keys of the attributes of the group `id` with one of the names.
pub open spec fn keys_of_names(id: GroupId, names: Seq<Seq<char>>) -> Set<AttributeKey> {
    Set::new(|k: AttributeKey| k.0 == id && names.contains(k.1))
}

/// In an ordered attribute table a key stands at one place only.
pub proof fn lemma_key_place(t: TablesView, i: int, j: int)
    requires
        t.attributes_ordered(),
        0 <= i < t.attributes.len(),
        0 <= j < t.attributes.len(),
        key_of(t.attributes[i]) == key_of(t.attributes[j]),
    ensures
        i == j,
{
    lemma_key_before_total(key_of(t.attributes[i]), key_of(t.attributes[j]));
    if i < j {
        assert(row_before(t.attributes[i], t.attributes[j]));
    } else if j < i {
        assert(row_before(t.attributes[j], t.attributes[i]));
    }
}

/// In an ordered attribute table the map gives, for the key of each row,
/// the value of that row.
pub proof fn lemma_map_at(t: TablesView, i: int)
    requires
        t.attributes_ordered(),
        0 <= i < t.attributes.len(),
    ensures
        t.has_key(key_of(t.attributes[i])),
        t.attribute_map()[key_of(t.attributes[i])] == t.attributes[i].value,
{
    let k = key_of(t.attributes[i]);
    let c = choose|c: int| 0 <= c < t.attributes.len() && key_of(#[trigger] t.attributes[c]) == k;
    lemma_key_place(t, i, c);
}

/// The tables with other attribute rows.
pub open spec fn with_attribute_rows(t: TablesView, rows: Seq<AttributeRowView>) -> TablesView {
    TablesView { attributes: rows, ..t }
}

/// An ordered attribute table without its last row maps the keys as
/// before, but for the key of that row, which it does not map.
proof fn lemma_map_without_last(t: TablesView)
    requires
        t.attributes_ordered(),
        t.attributes.len() > 0,
    ensures
        with_attribute_rows(t, t.attributes.drop_last()).attributes_ordered(),
        with_attribute_rows(t, t.attributes.drop_last()).attribute_map() == t.attribute_map().remove(
            key_of(t.attributes.last()),
        ),
{
    let a = t.attributes;
    let a0 = a.drop_last();
    let t0 = with_attribute_rows(t, a0);
    let k = key_of(a.last());
    assert forall|i: int, j: int| 0 <= i < j < a0.len() implies row_before(#[trigger] a0[i], #[trigger] a0[j]) by {
        assert(row_before(a[i], a[j]));
    }
    let m = t.attribute_map().remove(k);
    let m0 = t0.attribute_map();
    assert forall|q: AttributeKey| m0.dom().contains(q) == m.dom().contains(q) by {
        if t0.has_key(q) {
            let x = choose|x: int| 0 <= x < a0.len() && key_of(#[trigger] a0[x]) == q;
            assert(key_of(a[x]) == q);
            if q == k {
                lemma_key_place(t, x, a.len() - 1);
            }
        }
        if q != k && t.has_key(q) {
            let x = choose|x: int| 0 <= x < a.len() && key_of(#[trigger] a[x]) == q;
            assert(key_of(a0[x]) == q);
        }
    }
    assert forall|q: AttributeKey| m0.dom().contains(q) implies m0[q] == m[q] by {
        let x = choose|x: int| 0 <= x < a0.len() && key_of(#[trigger] a0[x]) == q;
        lemma_map_at(t0, x);
        assert(a0[x] == a[x]);
        lemma_map_at(t, x);
    }
    assert(m0 =~= m);
}

/// Two ordered attribute tables that map the keys alike hold the same rows:
/// an attribute table is known by what it maps.
pub proof fn lemma_ordered_rows_unique(t1: TablesView, t2: TablesView)
    requires
        t1.attributes_ordered(),
        t2.attributes_ordered(),
        t1.attribute_map() == t2.attribute_map(),
    ensures
        t1.attributes == t2.attributes,
    decreases t1.attributes.len(),
{
    let a = t1.attributes;
    let b = t2.attributes;
    if a.len() == 0 || b.len() == 0 {
        if a.len() > 0 {
            lemma_map_at(t1, 0);
            assert(t1.attribute_map().dom().contains(key_of(a[0])));
            assert(t2.attribute_map().dom().contains(key_of(a[0])));
            assert(t2.has_key(key_of(a[0])));
        }
        if b.len() > 0 {
            lemma_map_at(t2, 0);
            assert(t2.attribute_map().dom().contains(key_of(b[0])));
            assert(t1.attribute_map().dom().contains(key_of(b[0])));
            assert(t1.has_key(key_of(b[0])));
        }
        assert(a =~= b);
    } else {
        let la = a.len() - 1;
        let lb = b.len() - 1;
        let ka = key_of(a[la]);
        let kb = key_of(b[lb]);
        lemma_map_at(t1, la);
        lemma_map_at(t2, lb);
        assert(t1.attribute_map().dom().contains(ka));
        assert(t2.attribute_map().dom().contains(ka));
        assert(t2.attribute_map().dom().contains(kb));
        assert(t1.attribute_map().dom().contains(kb));
        assert(t2.has_key(ka));
        assert(t1.has_key(kb));
        let j = choose|j: int| 0 <= j < b.len() && key_of(#[trigger] b[j]) == ka;
        let i = choose|i: int| 0 <= i < a.len() && key_of(#[trigger] a[i]) == kb;
        lemma_key_before_total(ka, kb);
        if j < lb {
            assert(row_before(b[j], b[lb]));
        }
        if i < la {
            assert(row_before(a[i], a[la]));
        }
        if key_before(ka, kb) && key_before(kb, ka) {
            lemma_key_before_transitive(ka, kb, ka);
            lemma_key_before_total(ka, ka);
        }
        assert(ka == kb);
        assert(a[la] == b[lb]);
        lemma_map_without_last(t1);
        lemma_map_without_last(t2);
        lemma_ordered_rows_unique(with_attribute_rows(t1, a.drop_last()), with_attribute_rows(t2, b.drop_last()));
        assert(a =~= a.drop_last().push(a[la]));
        assert(b =~= b.drop_last().push(b[lb]));
    }
}

/// Whether the condition `c` holds of the group row `g`, with the tables `t`.
pub open spec fn holds(c: ConditionView, t: TablesView, g: GroupRowView) -> bool
    decreases c,
{
    match c {
        ConditionView::Value(b) => b,
        ConditionView::All(cs) => forall|i: int| 0 <= i < cs.len() ==> holds(#[trigger] cs[i], t, g),
        ConditionView::Any(cs) => exists|i: int| 0 <= i < cs.len() && holds(#[trigger] cs[i], t, g),
        ConditionView::Not(d) => !holds(*d, t, g),
        ConditionView::LowercaseDisplayNameEquals(s) => g.lowercase_display_name == s,
        ConditionView::GroupIdEquals(id) => g.group_id == id,
        ConditionView::UuidEquals(u) => g.uuid == u,
        ConditionView::GroupIdInMemberships(user) => t.is_member(user, g.group_id),
        ConditionView::LowercaseDisplayNameLike(p) => like_matches(p, g.lowercase_display_name),
        ConditionView::GroupIdInAttributes(name, value) => t.has_attribute(g.group_id, name, value),
        ConditionView::GroupIdInGroups(d) => exists|j: int|
            0 <= j < t.groups.len() && (#[trigger] t.groups[j]).group_id == g.group_id && holds(*d, t, t.groups[j]),
    }
}

/// Whether the group `g` passes the filter `f`, with the tables `t`: what
/// the filter means, whatever it is compiled into.
pub open spec fn passes(f: FilterView, t: TablesView, g: GroupRowView) -> bool
    decreases f,
{
    match f {
        FilterView::True => true,
        FilterView::False => false,
        FilterView::And(fs) => forall|i: int| 0 <= i < fs.len() ==> passes(#[trigger] fs[i], t, g),
        FilterView::Or(fs) => exists|i: int| 0 <= i < fs.len() && passes(#[trigger] fs[i], t, g),
        FilterView::Not(h) => !passes(*h, t, g),
        FilterView::DisplayName(name) => lowercase_of(g.display_name) == lowercase_of(name),
        FilterView::Uuid(uuid) => g.uuid == uuid,
        FilterView::GroupId(id) => g.group_id == id,
        FilterView::Member(user) => t.is_member(user, g.group_id),
        FilterView::DisplayNameSubString(s) => like_matches(sql_pattern(s), lowercase_of(g.display_name)),
        FilterView::AttributeEquality(name, value) => t.has_attribute(g.group_id, name, Some(encode_value(value))),
        FilterView::CustomAttributePresent(name) => t.has_attribute(g.group_id, name, None),
    }
}

/// The compiled form of a filter holds of exactly the group rows that pass the
/// filter, for every row that holds the lower-case form of its display name.
pub proof fn lemma_compiled_means_filter(f: FilterView, t: TablesView, g: GroupRowView)
    requires
        g.lowercase_display_name == lowercase_of(g.display_name),
    ensures
        holds(compiled(f), t, g) == passes(f, t, g),
    decreases f,
{
    match f {
        FilterView::And(fs) => {
            if fs.len() > 0 {
                let cs = compiled(f)->All_0;
                assert forall|i: int| 0 <= i < fs.len() implies holds(#[trigger] cs[i], t, g) == passes(fs[i], t, g) by {
                    lemma_compiled_means_filter(fs[i], t, g);
                }
                if passes(f, t, g) {
                    assert forall|i: int| 0 <= i < cs.len() implies holds(#[trigger] cs[i], t, g) by {
                        assert(passes(fs[i], t, g));
                    }
                } else {
                    let i = choose|i: int| 0 <= i < fs.len() && !passes(#[trigger] fs[i], t, g);
                    assert(!holds(cs[i], t, g));
                }
            }
        },
        FilterView::Or(fs) => {
            if fs.len() > 0 {
                let cs = compiled(f)->Any_0;
                assert forall|i: int| 0 <= i < fs.len() implies holds(#[trigger] cs[i], t, g) == passes(fs[i], t, g) by {
                    lemma_compiled_means_filter(fs[i], t, g);
                }
                if passes(f, t, g) {
                    let i = choose|i: int| 0 <= i < fs.len() && passes(#[trigger] fs[i], t, g);
                    assert(holds(cs[i], t, g));
                } else {
                    assert forall|i: int| 0 <= i < cs.len() implies !holds(#[trigger] cs[i], t, g) by {
                        assert(!passes(fs[i], t, g));
                    }
                }
            }
        },
        FilterView::Not(h) => {
            lemma_compiled_means_filter(*h, t, g);
        },
        _ => {},
    }
}

/// The test that the condition `c` holds of a group row.
pub open spec fn satisfies(c: ConditionView, t: TablesView) -> spec_fn(GroupRowView) -> bool {
    |g: GroupRowView| holds(c, t, g)
}

/// The group rows of which the condition `c` holds, in the order of their
/// ids.
pub open spec fn selected(t: TablesView, c: ConditionView) -> Seq<GroupRowView> {
    t.groups.filter(satisfies(c, t))
}

/// Whether the condition `c` holds of a group row with the id `id`.
pub open spec fn group_selected(c: ConditionView, t: TablesView, id: GroupId) -> bool {
    exists|i: int| 0 <= i < t.groups.len() && (#[trigger] t.groups[i]).group_id == id && holds(c, t, t.groups[i])
}

/// The test that an attribute row belongs to a group of which the
/// condition `c` holds.
pub open spec fn row_selected(c: ConditionView, t: TablesView) -> spec_fn(AttributeRowView) -> bool {
    |r: AttributeRowView| group_selected(c, t, r.group_id)
}

/// The attribute rows of the groups of which the condition `c` holds, in
/// the order of group ids and attribute names.
pub open spec fn selected_rows(t: TablesView, c: ConditionView) -> Seq<AttributeRowView> {
    t.attributes.filter(row_selected(c, t))
}

/// The test that a membership row belongs to the group `id`.
pub open spec fn membership_of(id: GroupId) -> spec_fn(MembershipRowView) -> bool {
    |m: MembershipRowView| m.group_id == id
}

/// The users that are members of the group `id`, in the order of the
/// membership rows.
pub open spec fn users_of(t: TablesView, id: GroupId) -> Seq<Seq<char>> {
    t.memberships.filter(membership_of(id)).map_values(|m: MembershipRowView| m.user_id)
}

/// The condition under which groups are listed: with a filter, the group's
/// id is among the ids of the groups that the compiled filter selects;
/// without one, every group is listed.
pub open spec fn list_condition(filter: Option<FilterView>) -> ConditionView {
    match filter {
        Some(f) => ConditionView::GroupIdInGroups(Box::new(compiled(f))),
        None => ConditionView::Value(true),
    }
}

/// Whether a filter that may be absent lets the group pass.
pub open spec fn passes_optional(filter: Option<FilterView>, t: TablesView, g: GroupRowView) -> bool {
    match filter {
        Some(f) => passes(f, t, g),
        None => true,
    }
}

/// On well-formed tables the listing condition holds of exactly the groups
/// of the table that pass the filter.
pub proof fn lemma_list_condition_means_filter(filter: Option<FilterView>, t: TablesView, i: int)
    requires
        t.wf(),
        0 <= i < t.groups.len(),
    ensures
        holds(list_condition(filter), t, t.groups[i]) == passes_optional(filter, t, t.groups[i]),
{
    match filter {
        Some(f) => {
            let g = t.groups[i];
            lemma_compiled_means_filter(f, t, g);
            if holds(list_condition(filter), t, g) {
                let j = choose|j: int|
                    0 <= j < t.groups.len() && (#[trigger] t.groups[j]).group_id == g.group_id && holds(
                        compiled(f),
                        t,
                        t.groups[j],
                    );
                assert(j == i) by {
                    if j < i {
                        assert(t.groups[j].group_id.0 < t.groups[i].group_id.0);
                    } else if i < j {
                        assert(t.groups[i].group_id.0 < t.groups[j].group_id.0);
                    }
                }
            }
        },
        None => {},
    }
}

/// The ids of the groups that are listed under a filter.
pub open spec fn listed_ids(t: TablesView, filter: Option<FilterView>) -> Set<GroupId> {
    Set::new(
        |id: GroupId|
            exists|i: int|
                0 <= i < t.groups.len() && (#[trigger] t.groups[i]).group_id == id && holds(
                    list_condition(filter),
                    t,
                    t.groups[i],
                ),
    )
}

/// A group is listed under a filter exactly if it exists and passes it.
pub proof fn lemma_listed_ids(t: TablesView, filter: Option<FilterView>, i: int)
    requires
        t.wf(),
        0 <= i < t.groups.len(),
    ensures
        listed_ids(t, filter).contains(t.groups[i].group_id) == passes_optional(filter, t, t.groups[i]),
{
    lemma_list_condition_means_filter(filter, t, i);
    if listed_ids(t, filter).contains(t.groups[i].group_id) {
        let j = choose|j: int|
            0 <= j < t.groups.len() && (#[trigger] t.groups[j]).group_id == t.groups[i].group_id && holds(
                list_condition(filter),
                t,
                t.groups[j],
            );
        if j < i {
            assert(t.groups[j].group_id.0 < t.groups[i].group_id.0);
        } else if i < j {
            assert(t.groups[i].group_id.0 < t.groups[j].group_id.0);
        }
    }
}

/// Listing under the conjunction of two filters gives the groups that are
/// listed under both.
pub proof fn lemma_list_and_is_intersection(t: TablesView, f1: FilterView, f2: FilterView)
    requires
        t.wf(),
    ensures
        listed_ids(t, Some(FilterView::And(seq![f1, f2]))) == listed_ids(t, Some(f1)).intersect(
            listed_ids(t, Some(f2)),
        ),
{
    let both = FilterView::And(seq![f1, f2]);
    let lhs = listed_ids(t, Some(both));
    let rhs = listed_ids(t, Some(f1)).intersect(listed_ids(t, Some(f2)));
    assert forall|id: GroupId| lhs.contains(id) == rhs.contains(id) by {
        if t.has_group(id) {
            let i = choose|i: int| 0 <= i < t.groups.len() && (#[trigger] t.groups[i]).group_id == id;
            lemma_listed_ids(t, Some(both), i);
            lemma_listed_ids(t, Some(f1), i);
            lemma_listed_ids(t, Some(f2), i);
            let g = t.groups[i];
            let fs = seq![f1, f2];
            if passes(f1, t, g) && passes(f2, t, g) {
                assert forall|k: int| 0 <= k < fs.len() implies passes(#[trigger] fs[k], t, g) by {}
            } else {
                assert(fs[0] == f1 && fs[1] == f2);
            }
        }
    }
    assert(lhs =~= rhs);
}

/// Listing under a filter and listing under its negation share no group,
/// and together give the groups that are listed without a filter.
pub proof fn lemma_list_not_is_complement(t: TablesView, f: FilterView)
    requires
        t.wf(),
    ensures
        listed_ids(t, Some(FilterView::Not(Box::new(f)))).union(listed_ids(t, Some(f))) == listed_ids(t, None),
        listed_ids(t, Some(FilterView::Not(Box::new(f)))).intersect(listed_ids(t, Some(f))) == Set::<GroupId>::empty(),
{
    let not = FilterView::Not(Box::new(f));
    let a = listed_ids(t, Some(not));
    let b = listed_ids(t, Some(f));
    let all = listed_ids(t, None);
    assert forall|id: GroupId| (a.contains(id) || b.contains(id)) == all.contains(id) && !(a.contains(id)
        && b.contains(id)) by {
        if t.has_group(id) {
            let i = choose|i: int| 0 <= i < t.groups.len() && (#[trigger] t.groups[i]).group_id == id;
            lemma_listed_ids(t, Some(not), i);
            lemma_listed_ids(t, Some(f), i);
            lemma_listed_ids(t, None, i);
        }
    }
    assert(a.union(b) =~= all);
    assert(a.intersect(b) =~= Set::<GroupId>::empty());
}

} // verus!
