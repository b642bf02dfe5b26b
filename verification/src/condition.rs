//! Conditions on the rows of the group table, in the form in which a store
//! evaluates them.
use vstd::prelude::*;
use crate::types::GroupId;

verus! {

/// A condition on one row of the group table. Where it speaks of another
/// table, it does so through the ids that a query on that table selects.
#[derive(Debug, PartialEq, Eq)]
pub enum Condition {
    /// Holds of every row, or of none.
    Value(bool),
    /// Holds where all of the conditions hold.
    All(Vec<Condition>),
    /// Holds where one of the conditions holds.
    Any(Vec<Condition>),
    /// Holds where the condition does not.
    Not(Box<Condition>),
    /// The row's lower-case display name is this text.
    LowercaseDisplayNameEquals(String),
    /// The row's id is this one.
    GroupIdEquals(GroupId),
    /// The row's uuid is this text.
    UuidEquals(String),
    /// The row's id is among the group ids of the membership rows of this
    /// user.
    GroupIdInMemberships(String),
    /// The row's lower-case display name matches this pattern.
    LowercaseDisplayNameLike(String),
    /// The row's id is among the group ids of the attribute rows with this
    /// attribute name and, where a value is given, this stored value.
    GroupIdInAttributes(String, Option<Vec<u8>>),
    /// The row's id is among the ids of the group rows of which the
    /// condition holds.
    GroupIdInGroups(Box<Condition>),
}

/// The mathematical value of a `Condition`.
pub enum ConditionView {
    Value(bool),
    All(Seq<ConditionView>),
    Any(Seq<ConditionView>),
    Not(Box<ConditionView>),
    LowercaseDisplayNameEquals(Seq<char>),
    GroupIdEquals(GroupId),
    UuidEquals(Seq<char>),
    GroupIdInMemberships(Seq<char>),
    LowercaseDisplayNameLike(Seq<char>),
    GroupIdInAttributes(Seq<char>, Option<Seq<u8>>),
    GroupIdInGroups(Box<ConditionView>),
}

/// The mathematical value of a stored value that may be absent.
pub open spec fn bytes_view(value: Option<Vec<u8>>) -> Option<Seq<u8>> {
    match value {
        Some(b) => Some(b@),
        None => None,
    }
}

/// The mathematical value of `c`.
pub open spec fn condition_view(c: Condition) -> ConditionView
    decreases c,
{
    match c {
        Condition::Value(b) => ConditionView::Value(b),
        Condition::All(cs) => ConditionView::All(
            Seq::new(
                cs@.len(),
                |i: int|
                    if 0 <= i < cs@.len() {
                        condition_view(cs@[i])
                    } else {
                        arbitrary()
                    },
            ),
        ),
        Condition::Any(cs) => ConditionView::Any(
            Seq::new(
                cs@.len(),
                |i: int|
                    if 0 <= i < cs@.len() {
                        condition_view(cs@[i])
                    } else {
                        arbitrary()
                    },
            ),
        ),
        Condition::Not(d) => ConditionView::Not(Box::new(condition_view(*d))),
        Condition::LowercaseDisplayNameEquals(s) => ConditionView::LowercaseDisplayNameEquals(s@),
        Condition::GroupIdEquals(id) => ConditionView::GroupIdEquals(id),
        Condition::UuidEquals(s) => ConditionView::UuidEquals(s@),
        Condition::GroupIdInMemberships(user) => ConditionView::GroupIdInMemberships(user@),
        Condition::LowercaseDisplayNameLike(p) => ConditionView::LowercaseDisplayNameLike(p@),
        Condition::GroupIdInAttributes(name, value) => ConditionView::GroupIdInAttributes(
            name@,
            bytes_view(value),
        ),
        Condition::GroupIdInGroups(d) => ConditionView::GroupIdInGroups(Box::new(condition_view(*d))),
    }
}

impl View for Condition {
    type V = ConditionView;

    open spec fn view(&self) -> ConditionView {
        condition_view(*self)
    }
}

} // verus!
