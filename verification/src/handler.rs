//! The operations on groups: list, read, create, update, delete.
use vstd::prelude::*;
use crate::condition::ConditionView;
use crate::filter::{FilterView, GroupRequestFilter};
use crate::merge::{
    attached, decode_rows, decoded_rows, ids_increasing, ids_of, in_group, lemma_merged_prefix,
    lemma_sweep_ends, merge_attributes, merged, rows_follow, rows_of_group, with_attributes,
};
use crate::plan::{
    attribute_rows, check_declared, first_repeat, first_repeated, first_undeclared, group_key,
    list_groups_condition, names_of, new_group_row, new_row, rows_for,
};
use crate::schema::{AttributeSchemaView, PublicSchema, Schema};
use crate::seqs::{in_order, lemma_filter_filter, lemma_filter_places, occurs, stand_at, stands_at};
use crate::sort::{lemma_stably_sorted_map, rank_key, stable_sort, stably_sorted_by};
use crate::store::{Tables, bare_group, bare_of};
use crate::tables::{
    GroupRowView, TablesView, keys_of_names, list_condition, renamed_in, row_before, row_selected,
    satisfies, selected, selected_rows, with_rows, without_group,
};
use crate::text::{lowercase, lowercase_of};
use crate::types::{
    CreateGroupRequest, CreateGroupRequestView, DomainError, DomainErrorView, Group, GroupDetails,
    GroupDetailsView, GroupId, GroupView, Timestamp, UpdateGroupRequest, UpdateGroupRequestView,
    view_of, views,
};

verus! {

/// The row of the group `id`.
pub open spec fn group_at(t: TablesView, id: GroupId) -> GroupRowView {
    t.groups[choose|i: int| 0 <= i < t.groups.len() && (#[trigger] t.groups[i]).group_id == id]
}

/// What reading the group `id` gives: the group with its attributes in the
/// order of their names; an error where there is no such group, or where one
/// of its attribute rows cannot be read against the schema, the first such
/// row.
pub open spec fn details_of(t: TablesView, schema: Seq<AttributeSchemaView>, id: GroupId) -> Result<
    GroupDetailsView,
    DomainErrorView,
> {
    if !t.has_group(id) {
        Err(DomainErrorView::NotFound(id))
    } else {
        match decoded_rows(schema, rows_of_group(t.attributes, id)) {
            Err(e) => Err(e),
            Ok(attributes) => Ok(
                GroupDetailsView {
                    group_id: id,
                    display_name: group_at(t, id).display_name,
                    creation_date: group_at(t, id).creation_date,
                    uuid: group_at(t, id).uuid,
                    attributes,
                },
            ),
        }
    }
}

/// What deleting the group `id` does to the tables `t`, and what it
/// returns: where there is no such group, an error, and the tables stay as
/// they are; else the group goes, and with it its attribute rows and its
/// membership rows.
pub open spec fn delete_group_post(t: TablesView, id: GroupId, t2: TablesView, r: Result<(), DomainErrorView>) -> bool {
    if !t.has_group(id) {
        r == Err::<(), DomainErrorView>(DomainErrorView::NotFound(id)) && t2 == t
    } else {
        r == Ok::<(), DomainErrorView>(()) && t2 == without_group(t, id)
    }
}

/// What creating a group returns: the id of the new group, which is the
/// next id of the tables; or the first of these errors. The display name,
/// up to case, or the uuid is taken. The ids are used up. The schema does
/// not declare one of the attributes, the first such one. An attribute is
/// named twice, the first such one.
pub open spec fn create_group_outcome(
    t: TablesView,
    schema: Seq<AttributeSchemaView>,
    request: CreateGroupRequestView,
    now: Timestamp,
) -> Result<GroupId, DomainErrorView> {
    let id = GroupId(t.next_group_id as i32);
    let row = new_row(id, request.display_name, now);
    if t.name_taken(row.lowercase_display_name) || t.uuid_taken(row.uuid) {
        Err(DomainErrorView::UniquenessConflict(request.display_name))
    } else if t.next_group_id >= i32::MAX {
        Err(DomainErrorView::StorageError(request.display_name))
    } else {
        match first_undeclared(schema, names_of(request.attributes)) {
            Some(name) => Err(DomainErrorView::SchemaViolation(name)),
            None => match first_repeat(names_of(request.attributes)) {
                Some(name) => Err(DomainErrorView::StorageError(name)),
                None => Ok(id),
            },
        }
    }
}

/// What creating a group does to the tables `t`, and what it returns. On an
/// error the tables stay as they are. Else the group table has one more
/// row, that of the new group, and the attribute table holds, besides what
/// it held, the attributes asked for.
pub open spec fn create_group_post(
    t: TablesView,
    schema: Seq<AttributeSchemaView>,
    request: CreateGroupRequestView,
    now: Timestamp,
    t2: TablesView,
    r: Result<GroupId, DomainErrorView>,
) -> bool {
    &&& r == create_group_outcome(t, schema, request, now)
    &&& match r {
        Err(_) => t2 == t,
        Ok(id) => {
            &&& t2.groups == t.groups.push(new_row(id, request.display_name, now))
            &&& t2.attributes_ordered()
            &&& t2.attribute_map() == with_rows(t.attribute_map(), rows_for(id, request.attributes))
            &&& t2.memberships == t.memberships
            &&& t2.next_group_id == t.next_group_id + 1
        },
    }
}

/// What updating a group returns: nothing; or the first of these errors.
/// There is no such group. The new display name, up to case, is that of
/// another group. The schema does not declare one of the attributes to set,
/// the first such one. The schema does not declare one of the attributes to
/// remove, the first such one.
pub open spec fn update_group_outcome(t: TablesView, schema: Seq<AttributeSchemaView>, request: UpdateGroupRequestView) -> Result<
    (),
    DomainErrorView,
> {
    if !t.has_group(request.group_id) {
        Err(DomainErrorView::NotFound(request.group_id))
    } else if request.display_name matches Some(n) && t.name_taken_by_other(request.group_id, lowercase_of(n)) {
        Err(DomainErrorView::UniquenessConflict(request.display_name->0))
    } else {
        match first_undeclared(schema, names_of(request.insert_attributes)) {
            Some(name) => Err(DomainErrorView::SchemaViolation(name)),
            None => match first_undeclared(schema, request.delete_attributes) {
                Some(name) => Err(DomainErrorView::SchemaViolation(name)),
                None => Ok(()),
            },
        }
    }
}

/// What updating a group does to the tables `t`, and what it returns. On
/// an error the tables stay as they are. Else the group has the new display
/// name, if one is given; the attributes to remove are removed; and then
/// the attributes to set are stored one after the other, so that of two
/// with one name the later one stays.
pub open spec fn update_group_post(
    t: TablesView,
    schema: Seq<AttributeSchemaView>,
    request: UpdateGroupRequestView,
    t2: TablesView,
    r: Result<(), DomainErrorView>,
) -> bool {
    &&& r == update_group_outcome(t, schema, request)
    &&& match r {
        Err(_) => t2 == t,
        Ok(_) => {
            &&& t2.groups == renamed_in(t.groups, request.group_id, request.display_name)
            &&& t2.attributes_ordered()
            &&& t2.attribute_map() == with_rows(
                t.attribute_map().remove_keys(keys_of_names(request.group_id, request.delete_attributes)),
                rows_for(request.group_id, request.insert_attributes),
            )
            &&& t2.memberships == t.memberships
            &&& t2.next_group_id == t.next_group_id
        },
    }
}

/// The group of the row `g` as it is listed: with its members, and with
/// what its attribute rows hold, in the order of the attribute names.
pub open spec fn listed_group(t: TablesView, schema: Seq<AttributeSchemaView>, g: GroupRowView) -> GroupView {
    with_attributes(bare_group(t, g), decoded_rows(schema, rows_of_group(t.attributes, g.group_id))->Ok_0)
}

/// The function that takes a group row to the group as it is listed.
pub open spec fn listing_of(t: TablesView, schema: Seq<AttributeSchemaView>) -> spec_fn(GroupRowView) -> GroupView {
    |g: GroupRowView| listed_group(t, schema, g)
}

/// What listing the groups under a filter returns. Where an attribute row
/// of a group that is listed cannot be read against the schema, the error
/// of the first such row, in the order of group ids and attribute names.
/// Else the groups that the listing condition selects, each with its
/// members and attributes, in the order of their display names up to case;
/// groups with one name up to case stand in the order of their ids.
pub open spec fn list_groups_post(
    t: TablesView,
    schema: Seq<AttributeSchemaView>,
    filter: Option<FilterView>,
    r: Result<Seq<GroupView>, DomainErrorView>,
) -> bool {
    let c = list_condition(filter);
    match decoded_rows(schema, selected_rows(t, c)) {
        Err(e) => r == Err::<Seq<GroupView>, DomainErrorView>(e),
        Ok(_) => r is Ok && stably_sorted_by(
            r->Ok_0,
            selected(t, c).map_values(listing_of(t, schema)),
            group_key(),
        ),
    }
}

/// The mathematical value of a filter that may be absent.
pub open spec fn filter_option_view(filter: Option<GroupRequestFilter>) -> Option<FilterView> {
    match filter {
        Some(f) => Some(f@),
        None => None,
    }
}

/// The mathematical value of a result that holds groups.
pub open spec fn groups_result_view(r: Result<Vec<Group>, DomainError>) -> Result<Seq<GroupView>, DomainErrorView> {
    match r {
        Ok(groups) => Ok(views(groups@)),
        Err(e) => Err(e@),
    }
}

/// On well-formed tables the sweep over the selected groups and the
/// selected rows fails exactly if the selected rows cannot be read, with
/// the same error; and where it does not fail, it gives each selected group
/// what the rows of that group hold.
pub proof fn lemma_sweep_lists(t: TablesView, schema: Seq<AttributeSchemaView>, c: ConditionView)
    requires
        t.wf(),
    ensures
        match merged(
            schema,
            selected(t, c).map_values(bare_of(t)),
            selected_rows(t, c),
            selected(t, c).len() as int,
        ) {
            Err(e) => decoded_rows(schema, selected_rows(t, c)) == Err::<Seq<crate::types::AttributeView>, DomainErrorView>(e),
            Ok(out) => decoded_rows(schema, selected_rows(t, c)) is Ok && out == selected(t, c).map_values(
                listing_of(t, schema),
            ),
        },
{
    let sel = selected(t, c);
    let bare = sel.map_values(bare_of(t));
    let rows = selected_rows(t, c);
    let ids = ids_of(bare);
    let n = sel.len() as int;
    lemma_filter_places(t.groups, satisfies(c, t));
    lemma_filter_places(t.attributes, row_selected(c, t));
    assert forall|a: int, b: int| 0 <= a < b < ids.len() implies (#[trigger] ids[a]).0 < (#[trigger] ids[b]).0 by {
        assert(in_order(t.groups, sel[a], sel[b]));
        let (k, l) = choose|k: int, l: int| stand_at(t.groups, sel[a], sel[b], k, l);
        assert(t.groups[k].group_id.0 < t.groups[l].group_id.0);
    }
    assert(ids_increasing(ids));
    assert forall|x: int, y: int| 0 <= x < y < rows.len() implies (#[trigger] rows[x]).group_id.0 <= (
    #[trigger] rows[y]).group_id.0 by {
        assert(in_order(t.attributes, rows[x], rows[y]));
        let (k, l) = choose|k: int, l: int| stand_at(t.attributes, rows[x], rows[y], k, l);
        assert(row_before(t.attributes[k], t.attributes[l]));
    }
    assert forall|x: int| 0 <= x < rows.len() implies ids.contains((#[trigger] rows[x]).group_id) by {
        assert(row_selected(c, t)(rows[x]));
        let i = choose|i: int|
            0 <= i < t.groups.len() && (#[trigger] t.groups[i]).group_id == rows[x].group_id && crate::tables::holds(
                c,
                t,
                t.groups[i],
            );
        assert(satisfies(c, t)(t.groups[i]));
        assert(sel.contains(t.groups[i]));
        let j = choose|j: int| 0 <= j < sel.len() && sel[j] == t.groups[i];
        assert(ids[j] == rows[x].group_id);
    }
    assert(rows_follow(rows, ids));
    lemma_merged_prefix(schema, bare, rows, n);
    lemma_sweep_ends(ids, rows);
    assert(rows.take(rows.len() as int) =~= rows);
    match merged(schema, bare, rows, n) {
        Ok(out) => {
            let want = sel.map_values(listing_of(t, schema));
            assert forall|k: int| 0 <= k < n implies out[k] == want[k] by {
                assert(attached(schema, bare, rows, out, k));
                let id = sel[k].group_id;
                assert(bare[k].id == id);
                assert forall|r: crate::tables::AttributeRowView| #[trigger] in_group(id)(r) implies row_selected(c, t)(
                    r,
                ) by {
                    assert(occurs(t.groups, sel[k]));
                    let w = choose|w: int| stands_at(t.groups, sel[k], w);
                    assert(satisfies(c, t)(sel[k]));
                    assert(t.groups[w].group_id == r.group_id && crate::tables::holds(c, t, t.groups[w]));
                }
                lemma_filter_filter(t.attributes, row_selected(c, t), in_group(id));
            }
            assert(out =~= want);
        },
        Err(_) => {},
    }
}

/// What making a user a member of a group does to the tables `t`, and what
/// it returns: where there is no such group, an error; where the user is a
/// member already, nothing; else the membership table has one more row. The
/// other tables stay as they are.
pub open spec fn add_member_post(
    t: TablesView,
    user_id: Seq<char>,
    group_id: GroupId,
    t2: TablesView,
    r: Result<(), DomainErrorView>,
) -> bool {
    if !t.has_group(group_id) {
        r == Err::<(), DomainErrorView>(DomainErrorView::NotFound(group_id)) && t2 == t
    } else if t.is_member(user_id, group_id) {
        r == Ok::<(), DomainErrorView>(()) && t2 == t
    } else {
        &&& r == Ok::<(), DomainErrorView>(())
        &&& t2 == TablesView {
            memberships: t.memberships.push(crate::tables::MembershipRowView { user_id, group_id }),
            ..t
        }
    }
}

/// The mathematical value of a result that holds an id.
pub open spec fn id_result_view(r: Result<GroupId, DomainError>) -> Result<GroupId, DomainErrorView> {
    match r {
        Ok(id) => Ok(id),
        Err(e) => Err(e@),
    }
}

/// The mathematical value of a result without a value.
pub open spec fn unit_result_view(r: Result<(), DomainError>) -> Result<(), DomainErrorView> {
    match r {
        Ok(_) => Ok(()),
        Err(e) => Err(e@),
    }
}

/// The groups of a directory, held in memory.
pub struct GroupStore {
    tables: Tables,
}

impl View for GroupStore {
    type V = TablesView;

    closed spec fn view(&self) -> TablesView {
        self.tables@
    }
}

impl GroupStore {
    #[verifier::type_invariant]
    spec fn inv(self) -> bool {
        self.tables@.wf()
    }

    /// A store without groups.
    pub fn new() -> (s: GroupStore)
        ensures
            s@.wf(),
            s@.groups.len() == 0,
            s@.attributes.len() == 0,
            s@.memberships.len() == 0,
            s@.next_group_id == 1,
    {
        GroupStore { tables: Tables::new() }
    }

    /// Reads the group `group_id` with its attributes.
    pub fn get_group_details(&self, schema: &PublicSchema, group_id: GroupId) -> (r: Result<
        GroupDetails,
        DomainError,
    >)
        ensures
            match details_of(self@, schema@.group_attributes, group_id) {
                Ok(d) => r matches Ok(x) && x@ == d,
                Err(e) => r matches Err(x) && x@ == e,
            },
    {
        proof {
            use_type_invariant(self);
        }
        let i = match self.tables.find_group(group_id) {
            Some(i) => i,
            None => {
                return Err(DomainError::NotFound(group_id));
            },
        };
        let row = &self.tables.groups[i];
        proof {
            let t = self@;
            let c = choose|c: int| 0 <= c < t.groups.len() && (#[trigger] t.groups[c]).group_id == group_id;
            if c < i {
                assert(t.groups[c].group_id.0 < t.groups[i as int].group_id.0);
            } else if i < c {
                assert(t.groups[i as int].group_id.0 < t.groups[c].group_id.0);
            }
            assert(group_at(t, group_id) == row@);
        }
        let rows = self.tables.rows_of(group_id);
        assert(views(rows@).subrange(0, rows@.len() as int) =~= views(rows@));
        let attributes = decode_rows(&rows, 0, rows.len(), &schema.get_schema().group_attributes)?;
        Ok(
            GroupDetails {
                group_id,
                display_name: row.display_name.clone(),
                creation_date: row.creation_date,
                uuid: row.uuid.clone(),
                attributes,
            },
        )
    }

    /// Deletes the group `group_id` with all that belongs to it.
    pub fn delete_group(&mut self, group_id: GroupId) -> (r: Result<(), DomainError>)
        ensures
            final(self)@.wf(),
            delete_group_post(old(self)@, group_id, final(self)@, unit_result_view(r)),
    {
        proof {
            use_type_invariant(&*self);
        }
        let mut tables = Tables::new();
        std::mem::swap(&mut tables, &mut self.tables);
        let ghost t = tables@;
        let deleted = tables.delete_group_rows(group_id);
        proof {
            if deleted == 0 {
                crate::tables::lemma_without_group_same(t, group_id);
            }
        }
        self.tables = tables;
        crate::plan::deletion_outcome(group_id, deleted as u64)
    }

    /// Creates a group with the display name and the attributes asked for,
    /// at the time `now`. The attributes are held against the
    /// administrator's declarations, so a built-in attribute cannot be
    /// written this way. Every check is made before anything is written, so
    /// the group is created with all its attributes or not at all.
    pub fn create_group(&mut self, schema: &Schema, request: CreateGroupRequest, now: Timestamp) -> (r: Result<
        GroupId,
        DomainError,
    >)
        ensures
            final(self)@.wf(),
            create_group_post(
                old(self)@,
                schema@.group_attributes,
                request@,
                now,
                final(self)@,
                id_result_view(r),
            ),
    {
        proof {
            use_type_invariant(&*self);
        }
        let ghost t = self@;
        let ghost names = names_of(request@.attributes);
        let id = GroupId(self.tables.next_group_id);
        let row = new_group_row(id, request.display_name.clone(), now);
        let taken = self.tables.find_by_lowercase_name(row.lowercase_display_name.as_str()).is_some()
            || self.tables.has_uuid(row.uuid.as_str());
        if taken {
            return Err(DomainError::UniquenessConflict(request.display_name));
        }
        if self.tables.next_group_id == i32::MAX {
            return Err(DomainError::StorageError(request.display_name));
        }
        let rows = attribute_rows(&schema.group_attributes, id, &request.attributes)?;
        match first_repeated(&request.attributes) {
            Some(i) => {
                proof {
                    crate::plan::lemma_first_repeat_at(names, i as int);
                    assert(names[i as int] == request.attributes@[i as int].name@);
                }
                return Err(DomainError::StorageError(request.attributes[i].name.clone()));
            },
            None => {},
        }
        let mut tables = Tables::new();
        std::mem::swap(&mut tables, &mut self.tables);
        assert(tables@ == t);
        tables.insert_group(row);
        proof {
            let t1 = tables@;
            assert(t1.groups[t.groups.len() as int].group_id == id);
            assert(t1.has_group(id));
            assert forall|i: int| 0 <= i < rows@.len() implies t1.has_group((#[trigger] rows@[i])@.group_id) by {
                assert(views(rows@)[i] == rows@[i]@);
                let rf = rows_for(id, request@.attributes);
                assert(rf.len() == rows@.len());
                assert(rf[i] == crate::plan::row_for(id, request@.attributes[i]));
            }
            assert(t1.attribute_map() =~= t.attribute_map()) by {
                assert(t1.attributes == t.attributes);
            }
        }
        tables.upsert_rows(rows);
        self.tables = tables;
        Ok(id)
    }

    /// Updates a group: gives it the new display name, if any, removes the
    /// attributes to remove, and sets the attributes to set. The attributes
    /// are held against the administrator's declarations, so a built-in
    /// attribute cannot be written this way.
    pub fn update_group(&mut self, schema: &Schema, request: UpdateGroupRequest) -> (r: Result<(), DomainError>)
        ensures
            final(self)@.wf(),
            update_group_post(
                old(self)@,
                schema@.group_attributes,
                request@,
                final(self)@,
                unit_result_view(r),
            ),
    {
        proof {
            use_type_invariant(&*self);
        }
        let mut tables = Tables::new();
        std::mem::swap(&mut tables, &mut self.tables);
        let r = Self::update_group_with_transaction(request, &mut tables, schema);
        self.tables = tables;
        r
    }

    /// Updates a group in the tables. Every check is made before anything
    /// is written, so that an update that fails leaves the tables as they
    /// were, as a transaction would.
    pub fn update_group_with_transaction(request: UpdateGroupRequest, tables: &mut Tables, schema: &Schema) -> (r: Result<
        (),
        DomainError,
    >)
        requires
            old(tables)@.wf(),
        ensures
            final(tables)@.wf(),
            update_group_post(
                old(tables)@,
                schema@.group_attributes,
                request@,
                final(tables)@,
                unit_result_view(r),
            ),
    {
        let ghost t = tables@;
        let ghost req = request@;
        let id = request.group_id;
        let i = match tables.find_group(id) {
            Some(i) => i,
            None => {
                return Err(DomainError::NotFound(id));
            },
        };
        assert(t.has_group(id));
        let UpdateGroupRequest { group_id: _, display_name, delete_attributes, insert_attributes } = request;
        match &display_name {
            Some(n) => {
                let lower = lowercase(n.as_str());
                if tables.name_taken_by_other(id, lower.as_str()) {
                    return Err(DomainError::UniquenessConflict(n.clone()));
                }
            },
            None => {},
        }
        let rows = attribute_rows(&schema.group_attributes, id, &insert_attributes)?;
        check_declared(&schema.group_attributes, &delete_attributes)?;
        match display_name {
            Some(n) => {
                tables.rename_group(i, n);
            },
            None => {
                proof {
                    assert(renamed_in(t.groups, id, None) =~= t.groups);
                }
            },
        }
        proof {
            assert(tables@.attribute_map() =~= t.attribute_map()) by {
                assert(tables@.attributes == t.attributes);
            }
        }
        tables.remove_attributes(id, &delete_attributes);
        proof {
            let t1 = tables@;
            assert(t1.groups[i as int].group_id == id);
            assert(t1.has_group(id));
            let rf = rows_for(id, req.insert_attributes);
            assert forall|k: int| 0 <= k < rows@.len() implies t1.has_group((#[trigger] rows@[k])@.group_id) by {
                assert(views(rows@)[k] == rows@[k]@);
                assert(rf.len() == rows@.len());
                assert(rf[k] == crate::plan::row_for(id, req.insert_attributes[k]));
            }
        }
        tables.upsert_rows(rows);
        Ok(())
    }

    /// Lists the groups that pass the filter, or all groups where there is
    /// none, each with its members and its attributes, in the order of
    /// their display names.
    ///
    /// The groups and their attribute rows are selected one after the
    /// other under the same condition, and the rows are attached to the
    /// groups in one sweep over both.
    pub fn list_groups(&self, schema: &PublicSchema, filters: Option<GroupRequestFilter>) -> (r: Result<
        Vec<Group>,
        DomainError,
    >)
        ensures
            list_groups_post(
                self@,
                schema@.group_attributes,
                filter_option_view(filters),
                groups_result_view(r),
            ),
    {
        proof {
            use_type_invariant(self);
        }
        let ghost t = self@;
        let ghost s = schema@.group_attributes;
        let c = list_groups_condition(filters);
        let groups = self.tables.select_groups(&c);
        let rows = self.tables.select_attributes(&c);
        proof {
            lemma_sweep_lists(t, s, c@);
        }
        let mut groups = merge_attributes(groups, &rows, &schema.get_schema().group_attributes)?;
        let ghost merged_groups = groups@;
        stable_sort(&mut groups);
        proof {
            lemma_stably_sorted_map(
                groups@,
                merged_groups,
                rank_key::<Group>(),
                view_of::<Group>(),
                group_key(),
            );
        }
        Ok(groups)
    }

    /// Makes the user a member of the group; nothing changes where the user
    /// is one already.
    pub fn add_user_to_group(&mut self, user_id: String, group_id: GroupId) -> (r: Result<(), DomainError>)
        ensures
            final(self)@.wf(),
            add_member_post(old(self)@, user_id@, group_id, final(self)@, unit_result_view(r)),
    {
        proof {
            use_type_invariant(&*self);
        }
        if self.tables.find_group(group_id).is_none() {
            return Err(DomainError::NotFound(group_id));
        }
        if self.tables.is_member(user_id.as_str(), group_id) {
            return Ok(());
        }
        let mut tables = Tables::new();
        std::mem::swap(&mut tables, &mut self.tables);
        tables.insert_membership(user_id, group_id);
        self.tables = tables;
        Ok(())
    }

    /// The tables of the store.
    pub fn tables(&self) -> (t: &Tables)
        ensures
            t@ == self@,
            t@.wf(),
    {
        proof {
            use_type_invariant(self);
        }
        &self.tables
    }
}

} // verus!
