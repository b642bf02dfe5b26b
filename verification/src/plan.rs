//! What the operations on groups decide before and after they touch the
//! tables: the row of a new group, the rows of its attributes, which names
//! the schema admits, and the condition under which groups are listed.
use vstd::prelude::*;
use vstd::bytes::{spec_u32_to_le_bytes, spec_u64_to_le_bytes, u32_to_le_bytes, u64_to_le_bytes};
use vstd::utf8::encode_utf8;
use crate::codec::{biased, encode_value, serialize};
use crate::condition::Condition;
use crate::filter::{GroupRequestFilter, get_group_filter_expr};
use crate::schema::{AttributeList, AttributeSchemaView, declares};
use crate::sort::Ranked;
use crate::tables::{AttributeRow, AttributeRowView, GroupRow, GroupRowView, list_condition};
use crate::text::{lowercase, lowercase_of, str_less};
use crate::types::{
    Attribute, AttributeView, DomainError, DomainErrorView, Group, GroupId, GroupView, Timestamp, views,
};

verus! {

/// The text form of the name-based (version 3) UUID that the `uuid` crate
/// computes for a name in the X.500 namespace.
pub uninterp spec fn uuid_v3_of(name: Seq<u8>) -> Seq<char>;

/// Calls `Uuid::new_v3` of the `uuid` crate with the X.500 namespace and
/// writes the result in its hyphenated lower-case form. Nothing is proved of
/// the digest: the result is only given its name, `uuid_v3_of`.
#[verifier::external_body]
fn uuid_v3(name: &[u8]) -> (r: String)
    ensures
        r@ == uuid_v3_of(name@),
{
    uuid::Uuid::new_v3(&uuid::Uuid::NAMESPACE_X500, name).to_string()
}

/// The bytes from which the uuid of a group is derived: its display name in
/// UTF-8, then the seconds and the nanoseconds of its creation, as the
/// codec stores them.
pub open spec fn uuid_source(display_name: Seq<char>, created: Timestamp) -> Seq<u8> {
    encode_utf8(display_name) + spec_u64_to_le_bytes(biased(created.seconds)) + spec_u32_to_le_bytes(
        created.nanoseconds,
    )
}

/// The uuid of a group with this display name, created at this time.
pub open spec fn derived_uuid(display_name: Seq<char>, created: Timestamp) -> Seq<char> {
    uuid_v3_of(uuid_source(display_name, created))
}

/// The uuid of a group with this display name, created at this time.
pub fn derive_uuid(display_name: &str, created: Timestamp) -> (r: String)
    ensures
        r@ == derived_uuid(display_name@, created),
{
    let mut source: Vec<u8> = Vec::new();
    source.extend_from_slice(display_name.as_bytes());
    let seconds = u64_to_le_bytes(crate::codec::bias(created.seconds));
    source.extend_from_slice(seconds.as_slice());
    let nanoseconds = u32_to_le_bytes(created.nanoseconds);
    source.extend_from_slice(nanoseconds.as_slice());
    assert(source@ =~= uuid_source(display_name@, created));
    uuid_v3(source.as_slice())
}

/// The row of a group with this id and display name, created at this time.
pub open spec fn new_row(group_id: GroupId, display_name: Seq<char>, created: Timestamp) -> GroupRowView {
    GroupRowView {
        group_id,
        display_name,
        lowercase_display_name: lowercase_of(display_name),
        creation_date: created,
        uuid: derived_uuid(display_name, created),
    }
}

/// The lower-case form of a display name, which the group table holds
/// beside the name.
pub fn lowercase_display_name(display_name: &str) -> (r: String)
    ensures
        r@ == lowercase_of(display_name@),
{
    lowercase(display_name)
}

/// What is known of a group before it is stored and gets its id.
#[derive(Clone, Debug, PartialEq, Eq)]
pub struct NewGroup {
    pub display_name: String,
    pub lowercase_display_name: String,
    pub creation_date: Timestamp,
    pub uuid: String,
}

impl NewGroup {
    /// The row of the group once it has the id `group_id`.
    pub open spec fn row(self, group_id: GroupId) -> GroupRowView {
        GroupRowView {
            group_id,
            display_name: self.display_name@,
            lowercase_display_name: self.lowercase_display_name@,
            creation_date: self.creation_date,
            uuid: self.uuid@,
        }
    }

    /// The row of the group once it has the id `group_id`.
    pub fn into_row(self, group_id: GroupId) -> (row: GroupRow)
        ensures
            row@ == self.row(group_id),
    {
        GroupRow {
            group_id,
            display_name: self.display_name,
            lowercase_display_name: self.lowercase_display_name,
            creation_date: self.creation_date,
            uuid: self.uuid,
        }
    }
}

/// A group with this display name, created at this time, before it is
/// stored: with the lower-case form of its name and with its uuid.
pub fn new_group(display_name: String, created: Timestamp) -> (g: NewGroup)
    ensures
        forall|group_id: GroupId| #[trigger] g.row(group_id) == new_row(group_id, display_name@, created),
{
    let lowercase_display_name = lowercase_display_name(display_name.as_str());
    let uuid = derive_uuid(display_name.as_str(), created);
    NewGroup { display_name, lowercase_display_name, creation_date: created, uuid }
}

/// The row of a group with this id and display name, created at this time.
pub fn new_group_row(group_id: GroupId, display_name: String, created: Timestamp) -> (row: GroupRow)
    ensures
        row@ == new_row(group_id, display_name@, created),
{
    new_group(display_name, created).into_row(group_id)
}

/// The names of the attributes, in order.
pub open spec fn names_of(attributes: Seq<AttributeView>) -> Seq<Seq<char>> {
    attributes.map_values(|a: AttributeView| a.name)
}

/// Whether the schema declares every one of the names.
pub open spec fn all_declared(schema: Seq<AttributeSchemaView>, names: Seq<Seq<char>>) -> bool {
    forall|i: int| 0 <= i < names.len() ==> declares(schema, #[trigger] names[i])
}

/// Whether `i` is the place of the first of the names that the schema does
/// not declare.
pub open spec fn is_first_undeclared(schema: Seq<AttributeSchemaView>, names: Seq<Seq<char>>, i: int) -> bool {
    &&& 0 <= i < names.len()
    &&& !declares(schema, names[i])
    &&& forall|j: int| 0 <= j < i ==> declares(schema, #[trigger] names[j])
}

/// The first of the names that the schema does not declare, if there is one.
pub open spec fn first_undeclared(schema: Seq<AttributeSchemaView>, names: Seq<Seq<char>>) -> Option<Seq<char>> {
    if all_declared(schema, names) {
        None
    } else {
        Some(names[choose|i: int| is_first_undeclared(schema, names, i)])
    }
}

/// The first undeclared name is the one at `i` once `i` is known to be its
/// place.
pub proof fn lemma_first_undeclared_at(schema: Seq<AttributeSchemaView>, names: Seq<Seq<char>>, i: int)
    requires
        is_first_undeclared(schema, names, i),
    ensures
        first_undeclared(schema, names) == Some(names[i]),
{
    let c = choose|c: int| is_first_undeclared(schema, names, c);
    assert(!declares(schema, names[i]));
    if c < i {
        assert(declares(schema, names[c]));
    } else if i < c {
        assert(declares(schema, names[i]));
    }
}

/// Checks that the schema declares every one of the names; the first that it
/// does not declare is the error.
pub fn check_declared(schema: &AttributeList, names: &Vec<String>) -> (r: Result<(), DomainError>)
    ensures
        match first_undeclared(schema@, views(names@)) {
            None => r is Ok,
            Some(name) => r matches Err(e) && e@ == DomainErrorView::SchemaViolation(name),
        },
{
    let mut i: usize = 0;
    while i < names.len()
        invariant
            i <= names.len(),
            forall|j: int| 0 <= j < i ==> declares(schema@, #[trigger] views(names@)[j]),
        decreases names.len() - i,
    {
        if !schema.contains(names[i].as_str()) {
            proof {
                lemma_first_undeclared_at(schema@, views(names@), i as int);
            }
            return Err(DomainError::SchemaViolation(names[i].clone()));
        }
        i += 1;
    }
    Ok(())
}

/// Whether no name occurs twice.
pub open spec fn distinct(names: Seq<Seq<char>>) -> bool {
    forall|i: int, j: int| 0 <= i < j < names.len() ==> #[trigger] names[i] != #[trigger] names[j]
}

/// Whether the name at the place `i` has occurred before.
pub open spec fn repeats(names: Seq<Seq<char>>, i: int) -> bool {
    exists|j: int| 0 <= j < i && #[trigger] names[j] == names[i]
}

/// Whether `i` is the first place at which a name stands that has occurred
/// before.
pub open spec fn is_first_repeat(names: Seq<Seq<char>>, i: int) -> bool {
    &&& 0 <= i < names.len()
    &&& repeats(names, i)
    &&& forall|k: int| 0 <= k < i ==> !repeats(names, k)
}

/// The first name that occurs a second time, if there is one.
pub open spec fn first_repeat(names: Seq<Seq<char>>) -> Option<Seq<char>> {
    if distinct(names) {
        None
    } else {
        Some(names[choose|i: int| is_first_repeat(names, i)])
    }
}

/// The first repeated name is the one at `i` once `i` is known to be its
/// place.
pub proof fn lemma_first_repeat_at(names: Seq<Seq<char>>, i: int)
    requires
        is_first_repeat(names, i),
    ensures
        first_repeat(names) == Some(names[i]),
{
    let j = choose|j: int| 0 <= j < i && #[trigger] names[j] == names[i];
    assert(names[j] == names[i]);
    assert(!distinct(names));
    let c = choose|c: int| is_first_repeat(names, c);
    if c < i {
        assert(!repeats(names, c));
    } else if i < c {
        assert(!repeats(names, i));
    }
}

/// The place of the first attribute whose name has occurred before.
pub fn first_repeated(attributes: &Vec<Attribute>) -> (r: Option<usize>)
    ensures
        match r {
            Some(i) => is_first_repeat(names_of(views(attributes@)), i as int),
            None => distinct(names_of(views(attributes@))),
        },
{
    let ghost names = names_of(views(attributes@));
    let mut i: usize = 0;
    while i < attributes.len()
        invariant
            i <= attributes.len(),
            names == names_of(views(attributes@)),
            forall|k: int| 0 <= k < i ==> !repeats(names, k),
        decreases attributes.len() - i,
    {
        let mut j: usize = 0;
        while j < i
            invariant
                j <= i < attributes.len(),
                names == names_of(views(attributes@)),
                forall|k: int| 0 <= k < i ==> !repeats(names, k),
                forall|k: int| 0 <= k < j ==> #[trigger] names[k] != names[i as int],
            decreases i - j,
        {
            if crate::text::str_eq(attributes[j].name.as_str(), attributes[i].name.as_str()) {
                assert(names[j as int] == names[i as int]);
                return Some(i);
            }
            assert(names[j as int] != names[i as int]);
            j += 1;
        }
        i += 1;
    }
    assert forall|a: int, b: int| 0 <= a < b < names.len() implies #[trigger] names[a] != #[trigger] names[b] by {
        assert(!repeats(names, b));
    }
    None
}

/// The row that stores the attribute `a` of the group `group_id`.
pub open spec fn row_for(group_id: GroupId, a: AttributeView) -> AttributeRowView {
    AttributeRowView { group_id, attribute_name: a.name, value: encode_value(a.value) }
}

/// The rows that store the attributes of the group `group_id`, in the order
/// of the attributes.
pub open spec fn rows_for(group_id: GroupId, attributes: Seq<AttributeView>) -> Seq<AttributeRowView> {
    attributes.map_values(|a: AttributeView| row_for(group_id, a))
}

/// The rows that store the attributes of the group `group_id`. An attribute
/// that the schema does not declare is an error, the first such one; no row
/// is made then.
pub fn attribute_rows(schema: &AttributeList, group_id: GroupId, attributes: &Vec<Attribute>) -> (r: Result<
    Vec<AttributeRow>,
    DomainError,
>)
    ensures
        match first_undeclared(schema@, names_of(views(attributes@))) {
            None => r matches Ok(rows) && views(rows@) == rows_for(group_id, views(attributes@)),
            Some(name) => r matches Err(e) && e@ == DomainErrorView::SchemaViolation(name),
        },
{
    let ghost names = names_of(views(attributes@));
    let mut rows: Vec<AttributeRow> = Vec::new();
    let mut i: usize = 0;
    while i < attributes.len()
        invariant
            i <= attributes.len(),
            names == names_of(views(attributes@)),
            forall|j: int| 0 <= j < i ==> declares(schema@, #[trigger] names[j]),
            rows@.len() == i,
            forall|j: int| 0 <= j < i ==> (#[trigger] rows@[j])@ == row_for(group_id, attributes@[j]@),
        decreases attributes.len() - i,
    {
        let a = &attributes[i];
        assert(names[i as int] == a.name@);
        if !schema.contains(a.name.as_str()) {
            proof {
                lemma_first_undeclared_at(schema@, names, i as int);
            }
            return Err(DomainError::SchemaViolation(a.name.clone()));
        }
        rows.push(AttributeRow { group_id, attribute_name: a.name.clone(), value: serialize(&a.value) });
        i += 1;
    }
    assert(views(rows@) =~= rows_for(group_id, views(attributes@)));
    Ok(rows)
}

/// The condition under which groups are listed: with a filter, the group's
/// id is among the ids of the groups that the compiled filter selects;
/// without one, every group is listed.
pub fn list_groups_condition(filters: Option<GroupRequestFilter>) -> (c: Condition)
    ensures
        c@ == list_condition(
            match filters {
                Some(f) => Some(f@),
                None => None,
            },
        ),
{
    match filters {
        Some(f) => Condition::GroupIdInGroups(Box::new(get_group_filter_expr(f))),
        None => Condition::Value(true),
    }
}

/// What deleting the group `group_id` came to, given the number of rows that
/// the store deleted: where it deleted none, there was no such group.
pub fn deletion_outcome(group_id: GroupId, rows_affected: u64) -> (r: Result<(), DomainError>)
    ensures
        match r {
            Ok(_) => rows_affected != 0,
            Err(e) => rows_affected == 0 && e@ == DomainErrorView::NotFound(group_id),
        },
{
    if rows_affected == 0 {
        Err(DomainError::NotFound(group_id))
    } else {
        Ok(())
    }
}

impl Ranked for Group {
    /// Groups are listed in the order of their display names, up to case.
    open spec fn rank(&self) -> Seq<char> {
        lowercase_of(self.display_name@)
    }

    fn ranks_before(&self, other: &Self) -> (r: bool) {
        let a = lowercase(self.display_name.as_str());
        let b = lowercase(other.display_name.as_str());
        str_less(a.as_str(), b.as_str())
    }
}

/// The key by which groups are listed: the display name in lower case.
pub open spec fn group_key() -> spec_fn(GroupView) -> Seq<char> {
    |g: GroupView| lowercase_of(g.display_name)
}

} // verus!
