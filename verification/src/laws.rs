//! Laws that relate the operations on groups to each other.
use vstd::prelude::*;
use crate::codec::{encode_value, lemma_value_round_trip, value_fits};
use crate::filter::{FilterView, compiled};
use crate::handler::{
    create_group_post, delete_group_post, details_of, group_at, list_groups_post, listing_of,
    update_group_post,
};
use crate::merge::{decoded_row, decoded_rows, in_group, rows_of_group};
use crate::plan::{all_declared, distinct, first_undeclared, names_of, new_row, row_for, rows_for};
use crate::schema::{AttributeSchemaView, declaration_of, declares};
use crate::sort::lemma_stably_sorted_is_permutation;
use crate::seqs::{lemma_filter_places, occurs, stands_at};
use crate::tables::{
    AttributeKey, AttributeRowView, GroupRowView, TablesView, key_of, lemma_key_place,
    lemma_map_at, lemma_ordered_rows_unique, list_condition, listed_ids, passes, satisfies,
    selected, with_rows,
};
use crate::text::lowercase_of;
use crate::types::{
    AttributeView, CreateGroupRequestView, DomainErrorView, GroupId, GroupView, Timestamp,
    UpdateGroupRequestView,
};

verus! {

/// Whether the key `k` is the key of one of the rows.
pub open spec fn among_keys(rows: Seq<AttributeRowView>, k: AttributeKey) -> bool {
    exists|i: int| 0 <= i < rows.len() && key_of(#[trigger] rows[i]) == k
}

/// Whether `i` is the last place at which a row with the key `k` stands.
pub open spec fn is_last_with_key(rows: Seq<AttributeRowView>, k: AttributeKey, i: int) -> bool {
    &&& 0 <= i < rows.len()
    &&& key_of(rows[i]) == k
    &&& forall|j: int| i < j < rows.len() ==> key_of(#[trigger] rows[j]) != k
}

/// After rows have been stored in a map, the map holds for a key the value
/// of the last row with that key; for a key of none of the rows it holds
/// what it held.
pub proof fn lemma_with_rows(m: Map<AttributeKey, Seq<u8>>, rows: Seq<AttributeRowView>, k: AttributeKey)
    ensures
        with_rows(m, rows).dom().contains(k) == (m.dom().contains(k) || among_keys(rows, k)),
        !among_keys(rows, k) && m.dom().contains(k) ==> with_rows(m, rows)[k] == m[k],
        forall|i: int| is_last_with_key(rows, k, i) ==> with_rows(m, rows)[k] == rows[i].value,
    decreases rows.len(),
{
    if rows.len() > 0 {
        let front = rows.drop_last();
        let last = rows.last();
        lemma_with_rows(m, front, k);
        if among_keys(front, k) {
            let i = choose|i: int| 0 <= i < front.len() && key_of(#[trigger] front[i]) == k;
            assert(key_of(rows[i]) == k);
        }
        if among_keys(rows, k) {
            let i = choose|i: int| 0 <= i < rows.len() && key_of(#[trigger] rows[i]) == k;
            if i < front.len() {
                assert(key_of(front[i]) == k);
            }
        }
        if key_of(last) == k {
            assert(key_of(rows[rows.len() - 1]) == k);
        }
        assert forall|i: int| is_last_with_key(rows, k, i) implies with_rows(m, rows)[k] == rows[i].value by {
            if i < front.len() {
                assert(key_of(rows[rows.len() - 1]) != k);
                assert(is_last_with_key(front, k, i)) by {
                    assert forall|j: int| i < j < front.len() implies key_of(#[trigger] front[j]) != k by {
                        assert(key_of(rows[j]) != k);
                    }
                }
            }
        }
    }
}

/// Where all the rows can be read, reading them gives, place by place, what
/// each holds.
pub proof fn lemma_decoded_rows_all(schema: Seq<AttributeSchemaView>, rows: Seq<AttributeRowView>)
    requires
        forall|i: int| 0 <= i < rows.len() ==> decoded_row(schema, #[trigger] rows[i]) is Ok,
    ensures
        decoded_rows(schema, rows) is Ok,
        decoded_rows(schema, rows)->Ok_0.len() == rows.len(),
        forall|i: int|
            0 <= i < rows.len() ==> (#[trigger] decoded_rows(schema, rows)->Ok_0[i]) == decoded_row(
                schema,
                rows[i],
            )->Ok_0,
    decreases rows.len(),
{
    if rows.len() > 0 {
        let front = rows.drop_last();
        assert forall|i: int| 0 <= i < front.len() implies decoded_row(schema, #[trigger] front[i]) is Ok by {
            assert(front[i] == rows[i]);
        }
        lemma_decoded_rows_all(schema, front);
        assert(decoded_row(schema, rows[rows.len() - 1]) is Ok);
        let out = decoded_rows(schema, rows)->Ok_0;
        assert forall|i: int| 0 <= i < rows.len() implies (#[trigger] out[i]) == decoded_row(schema, rows[i])->Ok_0 by {
            if i < front.len() {
                assert(front[i] == rows[i]);
                assert(out[i] == decoded_rows(schema, front)->Ok_0[i]);
            }
        }
    }
}

/// Whether each attribute holds a value that the schema admits for it, with
/// lengths that can be stored.
pub open spec fn values_conform(schema: Seq<AttributeSchemaView>, attributes: Seq<AttributeView>) -> bool {
    forall|k: int|
        0 <= k < attributes.len() ==> {
            let a = #[trigger] attributes[k];
            &&& declaration_of(schema, a.name) is Some
            &&& a.value.conforms(
                declaration_of(schema, a.name)->0.attribute_type,
                declaration_of(schema, a.name)->0.is_list,
            )
            &&& value_fits(a.value)
        }
}

/// A group that has been created is read back with the display name that
/// was asked for and with exactly the attributes that were asked for,
/// whatever their order, where each value is one that the schema by which
/// the group is read admits.
pub proof fn lemma_create_then_get_details(
    t: TablesView,
    written_by: Seq<AttributeSchemaView>,
    request: CreateGroupRequestView,
    now: Timestamp,
    t2: TablesView,
    id: GroupId,
    schema: Seq<AttributeSchemaView>,
)
    requires
        t.wf(),
        t2.wf(),
        create_group_post(t, written_by, request, now, t2, Ok(id)),
        values_conform(schema, request.attributes),
    ensures
        details_of(t2, schema, id) is Ok,
        details_of(t2, schema, id)->Ok_0.group_id == id,
        details_of(t2, schema, id)->Ok_0.display_name == request.display_name,
        details_of(t2, schema, id)->Ok_0.attributes.to_set() == request.attributes.to_set(),
{
    let attrs = request.attributes;
    let names = names_of(attrs);
    let new = rows_for(id, attrs);
    let m = t.attribute_map();
    let m2 = t2.attribute_map();
    let last = t.groups.len() as int;
    assert(t2.groups[last].group_id == id);
    assert(t2.has_group(id));
    assert(group_at(t2, id) == new_row(id, request.display_name, now)) by {
        let c = choose|c: int| 0 <= c < t2.groups.len() && (#[trigger] t2.groups[c]).group_id == id;
        if c < last {
            assert(t2.groups[c].group_id.0 < t2.groups[last].group_id.0);
        }
    }
    assert(distinct(names));
    // No row of the old tables belongs to the new group.
    assert forall|k: AttributeKey| k.0 == id implies !m.dom().contains(k) by {
        if t.has_key(k) {
            let x = choose|x: int| 0 <= x < t.attributes.len() && key_of(#[trigger] t.attributes[x]) == k;
            assert(t.has_group(t.attributes[x].group_id));
            let g = choose|g: int| 0 <= g < t.groups.len() && (#[trigger] t.groups[g]).group_id == id;
            assert(t.groups[g].group_id.0 < t.next_group_id);
        }
    }
    // Each attribute asked for is stored under its key.
    assert forall|k: int| 0 <= k < attrs.len() implies m2.dom().contains((id, #[trigger] attrs[k].name)) && m2[(
        id,
        attrs[k].name,
    )] == encode_value(attrs[k].value) by {
        let key = (id, attrs[k].name);
        assert(new[k] == row_for(id, attrs[k]));
        assert(is_last_with_key(new, key, k)) by {
            assert forall|j: int| k < j < new.len() implies key_of(#[trigger] new[j]) != key by {
                assert(new[j] == row_for(id, attrs[j]));
                assert(names[k] != names[j]);
            }
        }
        lemma_with_rows(m, new, key);
        assert(key_of(new[k]) == key);
    }
    let rows = rows_of_group(t2.attributes, id);
    lemma_filter_places(t2.attributes, in_group(id));
    // Each row of the new group holds one of the attributes asked for.
    assert forall|x: int| 0 <= x < rows.len() implies decoded_row(schema, #[trigger] rows[x]) is Ok && attrs.contains(
        decoded_row(schema, rows[x])->Ok_0,
    ) by {
        let r = rows[x];
        assert(in_group(id)(r));
        assert(occurs(t2.attributes, r));
        let y = choose|y: int| stands_at(t2.attributes, r, y);
        lemma_map_at(t2, y);
        let key = key_of(r);
        lemma_with_rows(m, new, key);
        assert(among_keys(new, key));
        let k = choose|k: int| 0 <= k < new.len() && key_of(#[trigger] new[k]) == key;
        assert(new[k] == row_for(id, attrs[k]));
        assert(m2[(id, attrs[k].name)] == encode_value(attrs[k].value));
        let d = declaration_of(schema, attrs[k].name)->0;
        lemma_value_round_trip(attrs[k].value, d.attribute_type, d.is_list);
        assert(decoded_row(schema, r) == Ok::<AttributeView, DomainErrorView>(attrs[k]));
    }
    lemma_decoded_rows_all(schema, rows);
    let got = decoded_rows(schema, rows)->Ok_0;
    assert forall|a: AttributeView| got.contains(a) == attrs.contains(a) by {
        if got.contains(a) {
            let x = choose|x: int| 0 <= x < got.len() && got[x] == a;
            assert(got[x] == decoded_row(schema, rows[x])->Ok_0);
        }
        if attrs.contains(a) {
            let k = choose|k: int| 0 <= k < attrs.len() && attrs[k] == a;
            let key = (id, attrs[k].name);
            assert(m2.dom().contains(key));
            assert(t2.has_key(key));
            let y = choose|y: int| 0 <= y < t2.attributes.len() && key_of(#[trigger] t2.attributes[y]) == key;
            lemma_map_at(t2, y);
            assert(in_group(id)(t2.attributes[y]));
            assert(rows.contains(t2.attributes[y]));
            let x = choose|x: int| 0 <= x < rows.len() && rows[x] == t2.attributes[y];
            let d = declaration_of(schema, attrs[k].name)->0;
            lemma_value_round_trip(attrs[k].value, d.attribute_type, d.is_list);
            assert(decoded_row(schema, rows[x]) == Ok::<AttributeView, DomainErrorView>(attrs[k]));
            assert(got[x] == a);
        }
    }
    assert(got.to_set() =~= attrs.to_set());
}

/// A group that has been created under the administrator's schema is read
/// back under the public form of that schema with the display name that was
/// asked for and with exactly the attributes that were asked for, whatever
/// their order, where each value is one that the administrator's
/// declaration admits.
pub proof fn lemma_create_then_get_details_public(
    t: TablesView,
    base: crate::schema::SchemaView,
    merged: crate::schema::SchemaView,
    request: CreateGroupRequestView,
    now: Timestamp,
    t2: TablesView,
    id: GroupId,
)
    requires
        t.wf(),
        t2.wf(),
        crate::schema::is_public_form(merged, base),
        create_group_post(t, base.group_attributes, request, now, t2, Ok(id)),
        values_conform(base.group_attributes, request.attributes),
    ensures
        details_of(t2, merged.group_attributes, id) is Ok,
        details_of(t2, merged.group_attributes, id)->Ok_0.group_id == id,
        details_of(t2, merged.group_attributes, id)->Ok_0.display_name == request.display_name,
        details_of(t2, merged.group_attributes, id)->Ok_0.attributes.to_set() == request.attributes.to_set(),
{
    let attrs = request.attributes;
    assert forall|k: int| 0 <= k < attrs.len() implies declaration_of(
        merged.group_attributes,
        (#[trigger] attrs[k]).name,
    ) == declaration_of(base.group_attributes, attrs[k].name) by {
        crate::schema::lemma_merged_declarations(
            merged.group_attributes,
            base.group_attributes,
            crate::schema::group_builtins(),
            attrs[k].name,
        );
        let d = declaration_of(base.group_attributes, attrs[k].name);
        assert(d is Some);
        assert(declares(base.group_attributes, attrs[k].name));
    }
    assert(values_conform(merged.group_attributes, attrs));
    lemma_create_then_get_details(t, base.group_attributes, request, now, t2, id, merged.group_attributes);
}

/// Where an update sets an attribute more than once, the value that is set
/// last stays: the group has one row for the attribute, and the row holds
/// the value of the last attribute of that name among those to set.
pub proof fn lemma_update_last_value_stays(
    t: TablesView,
    schema: Seq<AttributeSchemaView>,
    request: UpdateGroupRequestView,
    t2: TablesView,
    k: int,
)
    requires
        t.wf(),
        t2.wf(),
        update_group_post(t, schema, request, t2, Ok(())),
        0 <= k < request.insert_attributes.len(),
        forall|j: int|
            k < j < request.insert_attributes.len() ==> (#[trigger] request.insert_attributes[j]).name
                != request.insert_attributes[k].name,
    ensures
        t2.has_key((request.group_id, request.insert_attributes[k].name)),
        t2.attribute_map()[(request.group_id, request.insert_attributes[k].name)] == encode_value(
            request.insert_attributes[k].value,
        ),
        forall|x: int, y: int|
            0 <= x < t2.attributes.len() && 0 <= y < t2.attributes.len() && key_of(#[trigger] t2.attributes[x]) == (
                request.group_id,
                request.insert_attributes[k].name,
            ) && key_of(#[trigger] t2.attributes[y]) == (request.group_id, request.insert_attributes[k].name) ==> x
                == y,
{
    let id = request.group_id;
    let attrs = request.insert_attributes;
    let key = (id, attrs[k].name);
    let new = rows_for(id, attrs);
    let base = t.attribute_map().remove_keys(crate::tables::keys_of_names(id, request.delete_attributes));
    assert(new[k] == row_for(id, attrs[k]));
    assert(is_last_with_key(new, key, k)) by {
        assert forall|j: int| k < j < new.len() implies key_of(#[trigger] new[j]) != key by {
            assert(new[j] == row_for(id, attrs[j]));
        }
    }
    lemma_with_rows(base, new, key);
    assert(key_of(new[k]) == key);
    assert forall|x: int, y: int|
        0 <= x < t2.attributes.len() && 0 <= y < t2.attributes.len() && key_of(#[trigger] t2.attributes[x]) == key
            && key_of(#[trigger] t2.attributes[y]) == key implies x == y by {
        lemma_key_place(t2, x, y);
    }
}

/// Creating a group with an attribute that the schema does not declare
/// fails with that attribute's name, where the display name and the uuid
/// are free and an id is left; the tables stay as they are, so the same
/// groups are listed as before.
pub proof fn lemma_create_undeclared_fails(
    t: TablesView,
    schema: Seq<AttributeSchemaView>,
    request: CreateGroupRequestView,
    now: Timestamp,
    t2: TablesView,
    r: Result<GroupId, DomainErrorView>,
)
    requires
        create_group_post(t, schema, request, now, t2, r),
        !all_declared(schema, names_of(request.attributes)),
        !t.name_taken(lowercase_of(request.display_name)),
        !t.uuid_taken(crate::plan::derived_uuid(request.display_name, now)),
        t.next_group_id < i32::MAX,
    ensures
        r == Err::<GroupId, DomainErrorView>(
            DomainErrorView::SchemaViolation(first_undeclared(schema, names_of(request.attributes))->0),
        ),
        !declares(schema, first_undeclared(schema, names_of(request.attributes))->0),
        names_of(request.attributes).contains(first_undeclared(schema, names_of(request.attributes))->0),
        t2 == t,
        listed_ids(t2, None) == listed_ids(t, None),
{
    let names = names_of(request.attributes);
    let w = choose|w: int| 0 <= w < names.len() && !declares(schema, #[trigger] names[w]);
    lemma_has_first_undeclared(schema, names, w);
    let i = choose|i: int| crate::plan::is_first_undeclared(schema, names, i);
    assert(names[i] == first_undeclared(schema, names)->0);
}

/// Where a name is not declared, there is a first name that is not
/// declared.
proof fn lemma_has_first_undeclared(schema: Seq<AttributeSchemaView>, names: Seq<Seq<char>>, w: int)
    requires
        0 <= w < names.len(),
        !declares(schema, names[w]),
    ensures
        exists|i: int| crate::plan::is_first_undeclared(schema, names, i),
    decreases w,
{
    if forall|j: int| 0 <= j < w ==> declares(schema, #[trigger] names[j]) {
        assert(crate::plan::is_first_undeclared(schema, names, w));
    } else {
        let j = choose|j: int| 0 <= j < w && !declares(schema, #[trigger] names[j]);
        lemma_has_first_undeclared(schema, names, j);
    }
}

/// Deleting a group that does not exist fails and leaves the tables as
/// they are, so the same groups are listed as before.
pub proof fn lemma_delete_missing_fails(t: TablesView, id: GroupId, t2: TablesView, r: Result<(), DomainErrorView>)
    requires
        delete_group_post(t, id, t2, r),
        !t.has_group(id),
    ensures
        r == Err::<(), DomainErrorView>(DomainErrorView::NotFound(id)),
        t2 == t,
        listed_ids(t2, None) == listed_ids(t, None),
{
}

/// After a group has been created, creating a group whose display name is
/// the same up to case fails, and the tables stay as they are.
pub proof fn lemma_create_same_name_conflicts(
    t: TablesView,
    schema: Seq<AttributeSchemaView>,
    first: CreateGroupRequestView,
    first_time: Timestamp,
    t2: TablesView,
    id: GroupId,
    second: CreateGroupRequestView,
    second_time: Timestamp,
    t3: TablesView,
    r: Result<GroupId, DomainErrorView>,
)
    requires
        create_group_post(t, schema, first, first_time, t2, Ok(id)),
        lowercase_of(second.display_name) == lowercase_of(first.display_name),
        create_group_post(t2, schema, second, second_time, t3, r),
    ensures
        r == Err::<GroupId, DomainErrorView>(DomainErrorView::UniquenessConflict(second.display_name)),
        t3 == t2,
{
    let last = t.groups.len() as int;
    assert(t2.groups[last].lowercase_display_name == lowercase_of(second.display_name));
    assert(t2.name_taken(lowercase_of(second.display_name)));
}

/// What creating a group does is one thing only: the contract leaves no
/// choice of result or of tables.
pub proof fn lemma_create_is_determined(
    t: TablesView,
    schema: Seq<AttributeSchemaView>,
    request: CreateGroupRequestView,
    now: Timestamp,
    t2: TablesView,
    r2: Result<GroupId, DomainErrorView>,
    t3: TablesView,
    r3: Result<GroupId, DomainErrorView>,
)
    requires
        create_group_post(t, schema, request, now, t2, r2),
        create_group_post(t, schema, request, now, t3, r3),
    ensures
        r2 == r3,
        t2 == t3,
{
    if r2 is Ok {
        lemma_ordered_rows_unique(t2, t3);
    }
}

/// What updating a group does is one thing only: the contract leaves no
/// choice of result or of tables.
pub proof fn lemma_update_is_determined(
    t: TablesView,
    schema: Seq<AttributeSchemaView>,
    request: UpdateGroupRequestView,
    t2: TablesView,
    r2: Result<(), DomainErrorView>,
    t3: TablesView,
    r3: Result<(), DomainErrorView>,
)
    requires
        update_group_post(t, schema, request, t2, r2),
        update_group_post(t, schema, request, t3, r3),
    ensures
        r2 == r3,
        t2 == t3,
{
    if r2 is Ok {
        lemma_ordered_rows_unique(t2, t3);
    }
}

/// What listing the groups returns is one thing only.
pub proof fn lemma_list_is_determined(
    t: TablesView,
    schema: Seq<AttributeSchemaView>,
    filter: Option<FilterView>,
    r2: Result<Seq<GroupView>, DomainErrorView>,
    r3: Result<Seq<GroupView>, DomainErrorView>,
)
    requires
        list_groups_post(t, schema, filter, r2),
        list_groups_post(t, schema, filter, r3),
    ensures
        r2 == r3,
{
    if r2 is Ok {
        let c = list_condition(filter);
        let want = selected(t, c).map_values(listing_of(t, schema));
        crate::sort::lemma_stable_sort_unique(r2->Ok_0, r3->Ok_0, want, crate::plan::group_key());
    }
}

/// A filter on the display name does not tell apart names that are the same
/// up to case: two such filters compile into the same condition and let the
/// same groups pass, and a group passes the filter on its own display name
/// in any case.
pub proof fn lemma_display_name_filter_ignores_case(a: Seq<char>, b: Seq<char>, t: TablesView, g: GroupRowView)
    requires
        lowercase_of(a) == lowercase_of(b),
    ensures
        compiled(FilterView::DisplayName(a)) == compiled(FilterView::DisplayName(b)),
        passes(FilterView::DisplayName(a), t, g) == passes(FilterView::DisplayName(b), t, g),
        lowercase_of(g.display_name) == lowercase_of(a) ==> passes(FilterView::DisplayName(a), t, g),
{
}

/// The groups that a listing returns are those whose ids are listed under
/// the filter.
pub proof fn lemma_listing_has_listed_ids(
    t: TablesView,
    schema: Seq<AttributeSchemaView>,
    filter: Option<FilterView>,
    groups: Seq<GroupView>,
)
    requires
        t.wf(),
        list_groups_post(t, schema, filter, Ok(groups)),
    ensures
        crate::merge::ids_of(groups).to_set() == listed_ids(t, filter),
{
    let c = list_condition(filter);
    let sel = selected(t, c);
    let want = sel.map_values(listing_of(t, schema));
    let ids = crate::merge::ids_of(groups);
    lemma_stably_sorted_is_permutation(groups, want, crate::plan::group_key());
    groups.to_multiset_ensures();
    want.to_multiset_ensures();
    lemma_filter_places(t.groups, satisfies(c, t));
    assert forall|id: GroupId| ids.to_set().contains(id) == listed_ids(t, filter).contains(id) by {
        if ids.contains(id) {
            let x = choose|x: int| 0 <= x < ids.len() && ids[x] == id;
            assert(groups.contains(groups[x]));
            assert(groups.to_multiset().count(groups[x]) > 0);
            assert(want.to_multiset().count(groups[x]) > 0);
            assert(want.contains(groups[x]));
            let y = choose|y: int| 0 <= y < want.len() && want[y] == groups[x];
            assert(want[y].id == sel[y].group_id);
            assert(occurs(t.groups, sel[y]));
            let z = choose|z: int| stands_at(t.groups, sel[y], z);
            assert(satisfies(c, t)(sel[y]));
            assert(t.groups[z].group_id == id && crate::tables::holds(c, t, t.groups[z]));
        }
        if listed_ids(t, filter).contains(id) {
            let z = choose|z: int|
                0 <= z < t.groups.len() && (#[trigger] t.groups[z]).group_id == id && crate::tables::holds(
                    c,
                    t,
                    t.groups[z],
                );
            assert(satisfies(c, t)(t.groups[z]));
            assert(sel.contains(t.groups[z]));
            let y = choose|y: int| 0 <= y < sel.len() && sel[y] == t.groups[z];
            assert(want[y].id == id);
            assert(want.contains(want[y]));
            assert(want.to_multiset().count(want[y]) > 0);
            assert(groups.to_multiset().count(want[y]) > 0);
            assert(groups.contains(want[y]));
            let x = choose|x: int| 0 <= x < groups.len() && groups[x] == want[y];
            assert(ids[x] == id);
        }
    }
    assert(ids.to_set() =~= listed_ids(t, filter));
}

} // verus!
