//! Filters on groups, and how they are compiled into conditions on the group
//! table.
use vstd::prelude::*;
use vstd::string::StringExecFns;
use crate::codec::{encode_value, serialize};
use crate::condition::{Condition, ConditionView};
use crate::pattern::{
    lemma_like_percent, lemma_like_plain, lemma_like_plain_prefix, like_matches, plain,
    some_end_matches, starts_with,
};
use crate::text::{lowercase, lowercase_of};
use crate::types::{AttributeValue, AttributeValueView, GroupId, views};

verus! {

/// A substring filter: how a text starts, fragments that follow in this
/// order, and how it ends.
#[derive(Clone, Debug, PartialEq, Eq)]
pub struct SubStringFilter {
    pub initial: Option<String>,
    pub any: Vec<String>,
    pub final_: Option<String>,
}

/// The mathematical value of a `SubStringFilter`.
pub struct SubStringFilterView {
    pub initial: Option<Seq<char>>,
    pub any: Seq<Seq<char>>,
    pub final_: Option<Seq<char>>,
}

/// The mathematical value of a text that may be absent.
pub open spec fn text_view(s: Option<String>) -> Option<Seq<char>> {
    match s {
        Some(s) => Some(s@),
        None => None,
    }
}

impl View for SubStringFilter {
    type V = SubStringFilterView;

    open spec fn view(&self) -> SubStringFilterView {
        SubStringFilterView {
            initial: text_view(self.initial),
            any: views(self.any@),
            final_: text_view(self.final_),
        }
    }
}

/// The lower-case form of a fragment; nothing where there is no fragment.
pub open spec fn folded(part: Option<Seq<char>>) -> Seq<char> {
    match part {
        Some(s) => lowercase_of(s),
        None => Seq::empty(),
    }
}

/// The fragments in lower case, each followed by the wildcard `%`.
pub open spec fn any_pattern(any: Seq<Seq<char>>) -> Seq<char>
    decreases any.len(),
{
    if any.len() == 0 {
        Seq::empty()
    } else {
        any_pattern(any.drop_last()) + lowercase_of(any.last()) + seq!['%']
    }
}

/// The pattern that a substring filter stands for: its parts in lower case,
/// with the wildcard `%` after the start and after each fragment.
pub open spec fn sql_pattern(f: SubStringFilterView) -> Seq<char> {
    folded(f.initial) + seq!['%'] + any_pattern(f.any) + folded(f.final_)
}

/// Whether the fragments stand in `text` one after the other, in their
/// order and without overlap, and `text` ends with `last`.
pub open spec fn fragments_follow(fragments: Seq<Seq<char>>, last: Seq<char>, text: Seq<char>) -> bool
    decreases fragments.len(),
{
    if fragments.len() == 0 {
        exists|k: int| 0 <= k <= text.len() && #[trigger] text.skip(k) == last
    } else {
        exists|k: int|
            0 <= k <= text.len() && starts_with(#[trigger] text.skip(k), fragments[0]) && fragments_follow(
                fragments.drop_first(),
                last,
                text.skip(k).skip(fragments[0].len() as int),
            )
    }
}

/// The fragments in lower case.
pub open spec fn folded_all(any: Seq<Seq<char>>) -> Seq<Seq<char>> {
    any.map_values(|s: Seq<char>| lowercase_of(s))
}

/// Whether `text` has the parts of the filter, in lower case: it begins
/// with the start, the fragments follow one after the other, and it ends
/// with the end.
pub open spec fn has_parts(f: SubStringFilterView, text: Seq<char>) -> bool {
    &&& starts_with(text, folded(f.initial))
    &&& fragments_follow(folded_all(f.any), folded(f.final_), text.skip(folded(f.initial).len() as int))
}

/// Whether no part of the filter, in lower case, has a wildcard in it.
pub open spec fn parts_plain(f: SubStringFilterView) -> bool {
    &&& plain(folded(f.initial))
    &&& plain(folded(f.final_))
    &&& forall|i: int| 0 <= i < f.any.len() ==> plain(lowercase_of(#[trigger] f.any[i]))
}

/// The fragments, each followed by `%`, and then `last`.
spec fn tail_pattern(fragments: Seq<Seq<char>>, last: Seq<char>) -> Seq<char>
    decreases fragments.len(),
{
    if fragments.len() == 0 {
        last
    } else {
        fragments[0] + seq!['%'] + tail_pattern(fragments.drop_first(), last)
    }
}

proof fn lemma_any_pattern_front(any: Seq<Seq<char>>)
    requires
        any.len() > 0,
    ensures
        any_pattern(any) == lowercase_of(any[0]) + seq!['%'] + any_pattern(any.drop_first()),
    decreases any.len(),
{
    if any.len() == 1 {
        reveal_with_fuel(any_pattern, 2);
        assert(any.drop_last() =~= Seq::<Seq<char>>::empty());
        assert(any.drop_first() =~= Seq::<Seq<char>>::empty());
        assert(any_pattern(any) =~= lowercase_of(any[0]) + seq!['%'] + any_pattern(any.drop_first()));
    } else {
        lemma_any_pattern_front(any.drop_last());
        assert(any.drop_last().drop_first() =~= any.drop_first().drop_last());
        assert(any.drop_first().last() == any.last());
        assert(any.drop_last()[0] == any[0]);
        assert(any_pattern(any) =~= lowercase_of(any[0]) + seq!['%'] + any_pattern(any.drop_first()));
    }
}

proof fn lemma_tail_pattern(any: Seq<Seq<char>>, last: Seq<char>)
    ensures
        any_pattern(any) + last == tail_pattern(folded_all(any), last),
    decreases any.len(),
{
    if any.len() == 0 {
        assert(any_pattern(any) + last =~= last);
    } else {
        lemma_any_pattern_front(any);
        lemma_tail_pattern(any.drop_first(), last);
        assert(folded_all(any).drop_first() =~= folded_all(any.drop_first()));
        assert(folded_all(any)[0] == lowercase_of(any[0]));
        assert(any_pattern(any) + last =~= lowercase_of(any[0]) + seq!['%'] + (any_pattern(any.drop_first()) + last));
    }
}

proof fn lemma_tail_matches(fragments: Seq<Seq<char>>, last: Seq<char>, text: Seq<char>)
    requires
        plain(last),
        forall|i: int| 0 <= i < fragments.len() ==> plain(#[trigger] fragments[i]),
    ensures
        like_matches(seq!['%'] + tail_pattern(fragments, last), text) == fragments_follow(fragments, last, text),
    decreases fragments.len(),
{
    let tail = tail_pattern(fragments, last);
    lemma_like_percent(tail, text);
    if fragments.len() == 0 {
        assert forall|k: int| 0 <= k <= text.len() implies like_matches(tail, #[trigger] text.skip(k)) == (text.skip(k)
            == last) by {
            lemma_like_plain(last, text.skip(k));
        }
    } else {
        let first = fragments[0];
        let others = fragments.drop_first();
        let rest = seq!['%'] + tail_pattern(others, last);
        assert(tail =~= first + rest);
        assert forall|i: int| 0 <= i < others.len() implies plain(#[trigger] others[i]) by {
            assert(others[i] == fragments[i + 1]);
        }
        assert forall|k: int| 0 <= k <= text.len() implies like_matches(tail, #[trigger] text.skip(k)) == (starts_with(
            text.skip(k),
            first,
        ) && fragments_follow(others, last, text.skip(k).skip(first.len() as int))) by {
            lemma_like_plain_prefix(first, rest, text.skip(k));
            lemma_tail_matches(others, last, text.skip(k).skip(first.len() as int));
        }
    }
}

/// Where no part of a substring filter has a wildcard in it, a text matches
/// the pattern of the filter exactly if it has the parts of the filter: the
/// start at its beginning, the fragments after it in their order, and the
/// end at its end.
pub proof fn lemma_pattern_matches_parts(f: SubStringFilterView, text: Seq<char>)
    requires
        parts_plain(f),
    ensures
        like_matches(sql_pattern(f), text) == has_parts(f, text),
{
    let start = folded(f.initial);
    let rest = seq!['%'] + tail_pattern(folded_all(f.any), folded(f.final_));
    lemma_tail_pattern(f.any, folded(f.final_));
    assert(sql_pattern(f) =~= start + rest);
    lemma_like_plain_prefix(start, rest, text);
    assert forall|i: int| 0 <= i < folded_all(f.any).len() implies plain(#[trigger] folded_all(f.any)[i]) by {
        assert(folded_all(f.any)[i] == lowercase_of(f.any[i]));
    }
    lemma_tail_matches(folded_all(f.any), folded(f.final_), text.skip(start.len() as int));
}

impl SubStringFilter {
    /// The pattern that this filter stands for.
    pub fn to_sql_filter(&self) -> (r: String)
        ensures
            r@ == sql_pattern(self@),
    {
        proof {
            reveal_strlit("%");
        }
        assert("%"@ =~= seq!['%']);
        let mut out = String::new();
        match &self.initial {
            Some(s) => {
                let low = lowercase(s.as_str());
                out.append(low.as_str());
            },
            None => {},
        }
        assert(out@ =~= folded(self@.initial));
        out.append("%");
        let mut i: usize = 0;
        assert(views(self.any@).take(0) =~= Seq::<Seq<char>>::empty());
        while i < self.any.len()
            invariant
                i <= self.any.len(),
                "%"@ == seq!['%'],
                out@ == folded(self@.initial) + seq!['%'] + any_pattern(views(self.any@).take(i as int)),
            decreases self.any.len() - i,
        {
            let low = lowercase(self.any[i].as_str());
            let ghost before = out@;
            out.append(low.as_str());
            out.append("%");
            proof {
                let done = views(self.any@).take(i as int);
                let next = views(self.any@).take(i + 1);
                assert(next.drop_last() =~= done);
                assert(next.last() == self.any@[i as int]@);
                assert(out@ =~= folded(self@.initial) + seq!['%'] + any_pattern(next));
            }
            i += 1;
        }
        assert(views(self.any@).take(i as int) =~= views(self.any@));
        match &self.final_ {
            Some(s) => {
                let low = lowercase(s.as_str());
                out.append(low.as_str());
            },
            None => {},
        }
        assert(out@ =~= sql_pattern(self@));
        out
    }
}

/// A filter on groups.
#[derive(Debug, PartialEq, Eq)]
pub enum GroupRequestFilter {
    /// Every group.
    True,
    /// No group.
    False,
    /// The groups that pass all of the filters.
    And(Vec<GroupRequestFilter>),
    /// The groups that pass one of the filters.
    Or(Vec<GroupRequestFilter>),
    /// The groups that do not pass the filter.
    Not(Box<GroupRequestFilter>),
    /// The group with this display name, up to case.
    DisplayName(String),
    /// The group with this uuid.
    Uuid(String),
    /// The group with this id.
    GroupId(GroupId),
    /// The groups that this user is a member of.
    Member(String),
    /// The groups whose display name, up to case, has these parts.
    DisplayNameSubString(SubStringFilter),
    /// The groups that have this attribute with this value.
    AttributeEquality(String, AttributeValue),
    /// The groups that have this attribute.
    CustomAttributePresent(String),
}

/// The mathematical value of a `GroupRequestFilter`.
pub enum FilterView {
    True,
    False,
    And(Seq<FilterView>),
    Or(Seq<FilterView>),
    Not(Box<FilterView>),
    DisplayName(Seq<char>),
    Uuid(Seq<char>),
    GroupId(GroupId),
    Member(Seq<char>),
    DisplayNameSubString(SubStringFilterView),
    AttributeEquality(Seq<char>, AttributeValueView),
    CustomAttributePresent(Seq<char>),
}

/// The mathematical value of `f`.
pub open spec fn filter_view(f: GroupRequestFilter) -> FilterView
    decreases f,
{
    match f {
        GroupRequestFilter::True => FilterView::True,
        GroupRequestFilter::False => FilterView::False,
        GroupRequestFilter::And(fs) => FilterView::And(
            Seq::new(
                fs@.len(),
                |i: int|
                    if 0 <= i < fs@.len() {
                        filter_view(fs@[i])
                    } else {
                        arbitrary()
                    },
            ),
        ),
        GroupRequestFilter::Or(fs) => FilterView::Or(
            Seq::new(
                fs@.len(),
                |i: int|
                    if 0 <= i < fs@.len() {
                        filter_view(fs@[i])
                    } else {
                        arbitrary()
                    },
            ),
        ),
        GroupRequestFilter::Not(g) => FilterView::Not(Box::new(filter_view(*g))),
        GroupRequestFilter::DisplayName(name) => FilterView::DisplayName(name@),
        GroupRequestFilter::Uuid(uuid) => FilterView::Uuid(uuid@),
        GroupRequestFilter::GroupId(id) => FilterView::GroupId(id),
        GroupRequestFilter::Member(user) => FilterView::Member(user@),
        GroupRequestFilter::DisplayNameSubString(s) => FilterView::DisplayNameSubString(s@),
        GroupRequestFilter::AttributeEquality(name, value) => FilterView::AttributeEquality(name@, value@),
        GroupRequestFilter::CustomAttributePresent(name) => FilterView::CustomAttributePresent(name@),
    }
}

impl View for GroupRequestFilter {
    type V = FilterView;

    open spec fn view(&self) -> FilterView {
        filter_view(*self)
    }
}

/// The condition that selects the groups with an attribute called `name`
/// and, where `value` is given, with that stored value.
pub open spec fn attribute_condition_of(name: Seq<char>, value: Option<Seq<u8>>) -> ConditionView {
    ConditionView::GroupIdInAttributes(name, value)
}

/// The condition that a filter is compiled into.
pub open spec fn compiled(f: FilterView) -> ConditionView
    decreases f,
{
    match f {
        FilterView::True => ConditionView::Value(true),
        FilterView::False => ConditionView::Value(false),
        FilterView::And(fs) => if fs.len() == 0 {
            ConditionView::Value(true)
        } else {
            ConditionView::All(
                Seq::new(
                    fs.len(),
                    |i: int|
                        if 0 <= i < fs.len() {
                            compiled(fs[i])
                        } else {
                            arbitrary()
                        },
                ),
            )
        },
        FilterView::Or(fs) => if fs.len() == 0 {
            ConditionView::Value(false)
        } else {
            ConditionView::Any(
                Seq::new(
                    fs.len(),
                    |i: int|
                        if 0 <= i < fs.len() {
                            compiled(fs[i])
                        } else {
                            arbitrary()
                        },
                ),
            )
        },
        FilterView::Not(g) => ConditionView::Not(Box::new(compiled(*g))),
        FilterView::DisplayName(name) => ConditionView::LowercaseDisplayNameEquals(lowercase_of(name)),
        FilterView::Uuid(uuid) => ConditionView::UuidEquals(uuid),
        FilterView::GroupId(id) => ConditionView::GroupIdEquals(id),
        FilterView::Member(user) => ConditionView::GroupIdInMemberships(user),
        FilterView::DisplayNameSubString(s) => ConditionView::LowercaseDisplayNameLike(sql_pattern(s)),
        FilterView::AttributeEquality(name, value) => attribute_condition_of(name, Some(encode_value(value))),
        FilterView::CustomAttributePresent(name) => attribute_condition_of(name, None),
    }
}

/// The condition that selects the groups with an attribute called `name`
/// and, where `value` is given, with that stored value.
pub fn attribute_condition(name: String, value: Option<Vec<u8>>) -> (c: Condition)
    ensures
        c@ == attribute_condition_of(name@, crate::condition::bytes_view(value)),
{
    Condition::GroupIdInAttributes(name, value)
}

fn compile(filter: &GroupRequestFilter) -> (c: Condition)
    ensures
        c@ == compiled(filter@),
    decreases filter, 1nat,
{
    match filter {
        GroupRequestFilter::True => Condition::Value(true),
        GroupRequestFilter::False => Condition::Value(false),
        GroupRequestFilter::And(fs) => {
            if fs.len() == 0 {
                Condition::Value(true)
            } else {
                let cs = compile_all(filter, fs);
                assert(Condition::All(cs)@ =~= compiled(filter@)) by {
                    assert(Condition::All(cs)@->All_0 =~= compiled(filter@)->All_0);
                }
                Condition::All(cs)
            }
        },
        GroupRequestFilter::Or(fs) => {
            if fs.len() == 0 {
                Condition::Value(false)
            } else {
                let cs = compile_all(filter, fs);
                assert(Condition::Any(cs)@ =~= compiled(filter@)) by {
                    assert(Condition::Any(cs)@->Any_0 =~= compiled(filter@)->Any_0);
                }
                Condition::Any(cs)
            }
        },
        GroupRequestFilter::Not(g) => Condition::Not(Box::new(compile(g))),
        GroupRequestFilter::DisplayName(name) => Condition::LowercaseDisplayNameEquals(lowercase(name.as_str())),
        GroupRequestFilter::Uuid(uuid) => Condition::UuidEquals(uuid.clone()),
        GroupRequestFilter::GroupId(id) => Condition::GroupIdEquals(*id),
        GroupRequestFilter::Member(user) => Condition::GroupIdInMemberships(user.clone()),
        GroupRequestFilter::DisplayNameSubString(s) => Condition::LowercaseDisplayNameLike(s.to_sql_filter()),
        GroupRequestFilter::AttributeEquality(name, value) => attribute_condition(
            name.clone(),
            Some(serialize(value)),
        ),
        GroupRequestFilter::CustomAttributePresent(name) => attribute_condition(name.clone(), None),
    }
}

/// Compiles each of the filters `fs`, which `parent` holds.
fn compile_all(parent: &GroupRequestFilter, fs: &Vec<GroupRequestFilter>) -> (cs: Vec<Condition>)
    requires
        *parent == GroupRequestFilter::And(*fs) || *parent == GroupRequestFilter::Or(*fs),
    ensures
        cs@.len() == fs@.len(),
        forall|i: int| 0 <= i < fs@.len() ==> (#[trigger] cs@[i])@ == compiled(fs@[i]@),
    decreases parent, 0nat,
{
    let mut cs: Vec<Condition> = Vec::new();
    let mut i: usize = 0;
    while i < fs.len()
        invariant
            i <= fs.len(),
            *parent == GroupRequestFilter::And(*fs) || *parent == GroupRequestFilter::Or(*fs),
            cs@.len() == i,
            forall|j: int| 0 <= j < i ==> (#[trigger] cs@[j])@ == compiled(fs@[j]@),
        decreases fs.len() - i,
    {
        proof {
            if *parent == GroupRequestFilter::And(*fs) {
                assert(decreases_to!(*parent => parent->And_0));
            } else {
                assert(decreases_to!(*parent => parent->Or_0));
            }
            assert(decreases_to!(*fs => fs@));
            assert(decreases_to!(fs@ => fs@[i as int]));
        }
        let c = compile(&fs[i]);
        cs.push(c);
        i += 1;
    }
    cs
}

/// Compiles a filter into the condition that a store evaluates.
pub fn get_group_filter_expr(filter: GroupRequestFilter) -> (c: Condition)
    ensures
        c@ == compiled(filter@),
{
    compile(&filter)
}

} // verus!
