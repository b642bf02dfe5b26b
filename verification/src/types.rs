//! Plain values that every part of the library speaks of.
use vstd::prelude::*;

verus! {

/// The kinds of value an attribute can be declared to hold.
#[derive(Clone, Copy, Debug, PartialEq, Eq, Structural)]
pub enum AttributeType {
    String,
    Integer,
    JpegPhoto,
    DateTime,
}

/// A point in time: whole seconds since the Unix epoch, and the nanoseconds
/// within that second.
#[derive(Clone, Copy, Debug, PartialEq, Eq, Structural)]
pub struct Timestamp {
    pub seconds: i64,
    pub nanoseconds: u32,
}

/// The surrogate key of a group.
#[derive(Clone, Copy, Debug, PartialEq, Eq, Structural)]
pub struct GroupId(pub i32);

/// One value of an attribute.
#[derive(Clone, Debug, PartialEq, Eq)]
pub enum Scalar {
    String(String),
    Integer(i64),
    JpegPhoto(Vec<u8>),
    DateTime(Timestamp),
}

/// The mathematical value of a `Scalar`.
pub enum ScalarView {
    String(Seq<char>),
    Integer(i64),
    JpegPhoto(Seq<u8>),
    DateTime(Timestamp),
}

impl ScalarView {
    /// The attribute type that this value belongs to.
    pub open spec fn kind(self) -> AttributeType {
        match self {
            ScalarView::String(_) => AttributeType::String,
            ScalarView::Integer(_) => AttributeType::Integer,
            ScalarView::JpegPhoto(_) => AttributeType::JpegPhoto,
            ScalarView::DateTime(_) => AttributeType::DateTime,
        }
    }
}

impl View for Scalar {
    type V = ScalarView;

    open spec fn view(&self) -> ScalarView {
        match self {
            Scalar::String(s) => ScalarView::String(s@),
            Scalar::Integer(i) => ScalarView::Integer(*i),
            Scalar::JpegPhoto(b) => ScalarView::JpegPhoto(b@),
            Scalar::DateTime(t) => ScalarView::DateTime(*t),
        }
    }
}

/// What an attribute holds: one value, or an ordered collection of values of
/// one type.
#[derive(Clone, Debug, PartialEq, Eq)]
pub enum AttributeValue {
    Single(Scalar),
    List(AttributeType, Vec<Scalar>),
}

/// The mathematical value of an `AttributeValue`.
pub enum AttributeValueView {
    Single(ScalarView),
    List(AttributeType, Seq<ScalarView>),
}

impl AttributeValueView {
    /// Whether the value is one that an attribute declared with this type
    /// and cardinality can hold.
    pub open spec fn conforms(self, attribute_type: AttributeType, is_list: bool) -> bool {
        match self {
            AttributeValueView::Single(s) => !is_list && s.kind() == attribute_type,
            AttributeValueView::List(t, items) => {
                &&& is_list
                &&& t == attribute_type
                &&& forall|i: int| 0 <= i < items.len() ==> (#[trigger] items[i]).kind() == attribute_type
            },
        }
    }
}

impl View for AttributeValue {
    type V = AttributeValueView;

    open spec fn view(&self) -> AttributeValueView {
        match self {
            AttributeValue::Single(s) => AttributeValueView::Single(s@),
            AttributeValue::List(t, items) => AttributeValueView::List(*t, views(items@)),
        }
    }
}

/// A named value attached to an entry.
#[derive(Clone, Debug, PartialEq, Eq)]
pub struct Attribute {
    pub name: String,
    pub value: AttributeValue,
}

/// The mathematical value of an `Attribute`.
pub struct AttributeView {
    pub name: Seq<char>,
    pub value: AttributeValueView,
}

impl View for Attribute {
    type V = AttributeView;

    open spec fn view(&self) -> AttributeView {
        AttributeView { name: self.name@, value: self.value@ }
    }
}

/// A group as it is listed: with its members and its attributes.
#[derive(Clone, Debug, PartialEq, Eq)]
pub struct Group {
    pub id: GroupId,
    pub display_name: String,
    pub creation_date: Timestamp,
    pub uuid: String,
    pub users: Vec<String>,
    pub attributes: Vec<Attribute>,
}

/// The mathematical value of a `Group`.
pub struct GroupView {
    pub id: GroupId,
    pub display_name: Seq<char>,
    pub creation_date: Timestamp,
    pub uuid: Seq<char>,
    pub users: Seq<Seq<char>>,
    pub attributes: Seq<AttributeView>,
}

impl View for Group {
    type V = GroupView;

    open spec fn view(&self) -> GroupView {
        GroupView {
            id: self.id,
            display_name: self.display_name@,
            creation_date: self.creation_date,
            uuid: self.uuid@,
            users: views(self.users@),
            attributes: views(self.attributes@),
        }
    }
}

/// A group as it is read by its id: with its attributes.
#[derive(Clone, Debug, PartialEq, Eq)]
pub struct GroupDetails {
    pub group_id: GroupId,
    pub display_name: String,
    pub creation_date: Timestamp,
    pub uuid: String,
    pub attributes: Vec<Attribute>,
}

/// The mathematical value of a `GroupDetails`.
pub struct GroupDetailsView {
    pub group_id: GroupId,
    pub display_name: Seq<char>,
    pub creation_date: Timestamp,
    pub uuid: Seq<char>,
    pub attributes: Seq<AttributeView>,
}

impl View for GroupDetails {
    type V = GroupDetailsView;

    open spec fn view(&self) -> GroupDetailsView {
        GroupDetailsView {
            group_id: self.group_id,
            display_name: self.display_name@,
            creation_date: self.creation_date,
            uuid: self.uuid@,
            attributes: views(self.attributes@),
        }
    }
}

/// What is asked for when a group is created.
#[derive(Clone, Debug, PartialEq, Eq)]
pub struct CreateGroupRequest {
    pub display_name: String,
    pub attributes: Vec<Attribute>,
}

/// The mathematical value of a `CreateGroupRequest`.
pub struct CreateGroupRequestView {
    pub display_name: Seq<char>,
    pub attributes: Seq<AttributeView>,
}

impl View for CreateGroupRequest {
    type V = CreateGroupRequestView;

    open spec fn view(&self) -> CreateGroupRequestView {
        CreateGroupRequestView { display_name: self.display_name@, attributes: views(self.attributes@) }
    }
}

/// What is asked for when a group is updated: a new display name, if any,
/// attributes to remove, and attributes to set.
#[derive(Clone, Debug, PartialEq, Eq)]
pub struct UpdateGroupRequest {
    pub group_id: GroupId,
    pub display_name: Option<String>,
    pub delete_attributes: Vec<String>,
    pub insert_attributes: Vec<Attribute>,
}

/// The mathematical value of an `UpdateGroupRequest`.
pub struct UpdateGroupRequestView {
    pub group_id: GroupId,
    pub display_name: Option<Seq<char>>,
    pub delete_attributes: Seq<Seq<char>>,
    pub insert_attributes: Seq<AttributeView>,
}

impl View for UpdateGroupRequest {
    type V = UpdateGroupRequestView;

    open spec fn view(&self) -> UpdateGroupRequestView {
        UpdateGroupRequestView {
            group_id: self.group_id,
            display_name: match self.display_name {
                Some(s) => Some(s@),
                None => None,
            },
            delete_attributes: views(self.delete_attributes@),
            insert_attributes: views(self.insert_attributes@),
        }
    }
}

/// Why an operation failed, with the entry or the attribute that it failed on.
#[derive(Clone, Debug, PartialEq, Eq)]
pub enum DomainError {
    /// No group has this id.
    NotFound(GroupId),
    /// A write names an attribute that the schema does not declare.
    SchemaViolation(String),
    /// A stored row names an attribute that the schema does not declare.
    SchemaMismatch(String),
    /// The stored bytes of this attribute are not a value of its declared type.
    DecodeError(String),
    /// Another group has this display name, up to case, or this identity.
    UniquenessConflict(String),
    /// The store failed.
    StorageError(String),
}

/// The mathematical value of a `DomainError`.
pub enum DomainErrorView {
    NotFound(GroupId),
    SchemaViolation(Seq<char>),
    SchemaMismatch(Seq<char>),
    DecodeError(Seq<char>),
    UniquenessConflict(Seq<char>),
    StorageError(Seq<char>),
}

impl View for DomainError {
    type V = DomainErrorView;

    open spec fn view(&self) -> DomainErrorView {
        match self {
            DomainError::NotFound(id) => DomainErrorView::NotFound(*id),
            DomainError::SchemaViolation(s) => DomainErrorView::SchemaViolation(s@),
            DomainError::SchemaMismatch(s) => DomainErrorView::SchemaMismatch(s@),
            DomainError::DecodeError(s) => DomainErrorView::DecodeError(s@),
            DomainError::UniquenessConflict(s) => DomainErrorView::UniquenessConflict(s@),
            DomainError::StorageError(s) => DomainErrorView::StorageError(s@),
        }
    }
}

/// The function that takes a value to its view.
pub open spec fn view_of<T: View>() -> spec_fn(T) -> T::V {
    |x: T| x@
}

/// The views of the elements of a sequence, in order.
pub open spec fn views<T: View>(s: Seq<T>) -> Seq<T::V> {
    s.map_values(view_of::<T>())
}

} // verus!
