//! The schema: which attributes a user or a group may carry, and of what type.
use vstd::prelude::*;
use vstd::std_specs::convert::FromSpecImpl;
use crate::sort::{
    Ranked, key_is, lemma_stably_sorted_is_permutation, lemma_stably_sorted_map, of_key, rank_key,
    stable_sort, stably_sorted_by,
};
use crate::text::{str_eq, str_less};
use crate::types::{AttributeType, views, view_of};

verus! {

/// The declaration of one attribute.
#[derive(Clone, Debug, PartialEq, Eq)]
pub struct AttributeSchema {
    pub name: String,
    pub attribute_type: AttributeType,
    pub is_list: bool,
    pub is_visible: bool,
    pub is_editable: bool,
    pub is_hardcoded: bool,
    pub is_readonly: bool,
}

/// The mathematical value of an `AttributeSchema`.
pub struct AttributeSchemaView {
    pub name: Seq<char>,
    pub attribute_type: AttributeType,
    pub is_list: bool,
    pub is_visible: bool,
    pub is_editable: bool,
    pub is_hardcoded: bool,
    pub is_readonly: bool,
}

impl View for AttributeSchema {
    type V = AttributeSchemaView;

    open spec fn view(&self) -> AttributeSchemaView {
        AttributeSchemaView {
            name: self.name@,
            attribute_type: self.attribute_type,
            is_list: self.is_list,
            is_visible: self.is_visible,
            is_editable: self.is_editable,
            is_hardcoded: self.is_hardcoded,
            is_readonly: self.is_readonly,
        }
    }
}

impl Ranked for AttributeSchema {
    open spec fn rank(&self) -> Seq<char> {
        self.name@
    }

    fn ranks_before(&self, other: &Self) -> (r: bool) {
        str_less(self.name.as_str(), other.name.as_str())
    }
}

/// The key by which declarations are ordered: the name.
pub open spec fn name_key() -> spec_fn(AttributeSchemaView) -> Seq<char> {
    |a: AttributeSchemaView| a.name
}

/// `i` is the place of the first declaration of `name` in `list`.
pub open spec fn is_first_declaration(list: Seq<AttributeSchemaView>, name: Seq<char>, i: int) -> bool {
    &&& 0 <= i < list.len()
    &&& list[i].name == name
    &&& forall|j: int| 0 <= j < i ==> (#[trigger] list[j]).name != name
}

/// Whether `list` declares an attribute called `name`.
pub open spec fn declares(list: Seq<AttributeSchemaView>, name: Seq<char>) -> bool {
    exists|i: int| 0 <= i < list.len() && (#[trigger] list[i]).name == name
}

/// The first declaration of `name` in `list`, if there is one.
pub open spec fn declaration_of(list: Seq<AttributeSchemaView>, name: Seq<char>) -> Option<AttributeSchemaView> {
    if declares(list, name) {
        Some(list[choose|i: int| is_first_declaration(list, name, i)])
    } else {
        None
    }
}

/// The first declaration is found at `i` once `i` is known to be its place.
pub proof fn lemma_declaration_at(list: Seq<AttributeSchemaView>, name: Seq<char>, i: int)
    requires
        is_first_declaration(list, name, i),
    ensures
        declares(list, name),
        declaration_of(list, name) == Some(list[i]),
{
    let c = choose|c: int| is_first_declaration(list, name, c);
    assert(list[i].name == name);
    assert(list[c].name == name);
    assert(c == i);
}

/// The declarations of one kind of entry.
#[derive(Clone, Debug, PartialEq, Eq)]
pub struct AttributeList {
    pub attributes: Vec<AttributeSchema>,
}

impl View for AttributeList {
    type V = Seq<AttributeSchemaView>;

    open spec fn view(&self) -> Seq<AttributeSchemaView> {
        views(self.attributes@)
    }
}

impl AttributeList {
    /// The first declaration called `name`.
    pub fn get_attribute_schema(&self, name: &str) -> (r: Option<&AttributeSchema>)
        ensures
            match r {
                Some(a) => declaration_of(self@, name@) == Some(a@),
                None => declaration_of(self@, name@) is None,
            },
    {
        let mut i: usize = 0;
        while i < self.attributes.len()
            invariant
                i <= self.attributes.len(),
                forall|j: int| 0 <= j < i ==> (#[trigger] self@[j]).name != name@,
            decreases self.attributes.len() - i,
        {
            if str_eq(self.attributes[i].name.as_str(), name) {
                proof {
                    lemma_declaration_at(self@, name@, i as int);
                }
                return Some(&self.attributes[i]);
            }
            i += 1;
        }
        None
    }

    /// The type that the schema declares for `name`; `None` where it declares
    /// no such attribute.
    pub fn get_attribute_type(&self, name: &str) -> (r: Option<AttributeType>)
        ensures
            r == match declaration_of(self@, name@) {
                Some(a) => Some(a.attribute_type),
                None => None,
            },
    {
        match self.get_attribute_schema(name) {
            Some(a) => Some(a.attribute_type),
            None => None,
        }
    }

    /// Whether an attribute called `name` is declared.
    pub fn contains(&self, name: &str) -> (r: bool)
        ensures
            r == declares(self@, name@),
    {
        self.get_attribute_schema(name).is_some()
    }
}

/// The built-in declaration of a single-valued, visible attribute. One that
/// cannot be edited is read-only.
pub open spec fn hardcoded(name: Seq<char>, attribute_type: AttributeType, is_editable: bool) -> AttributeSchemaView {
    AttributeSchemaView {
        name,
        attribute_type,
        is_list: false,
        is_visible: true,
        is_editable,
        is_hardcoded: true,
        is_readonly: !is_editable,
    }
}

/// The attributes that every user has, in the order in which they are added
/// to the administrator's declarations.
pub open spec fn user_builtins() -> Seq<AttributeSchemaView> {
    seq![
        hardcoded("user_id"@, AttributeType::String, false),
        hardcoded("creation_date"@, AttributeType::DateTime, false),
        hardcoded("mail"@, AttributeType::String, true),
        hardcoded("uuid"@, AttributeType::String, false),
        hardcoded("display_name"@, AttributeType::String, true),
    ]
}

/// The attributes that every group has, in the order in which they are added
/// to the administrator's declarations.
pub open spec fn group_builtins() -> Seq<AttributeSchemaView> {
    seq![
        hardcoded("group_id"@, AttributeType::Integer, false),
        hardcoded("creation_date"@, AttributeType::DateTime, false),
        hardcoded("uuid"@, AttributeType::String, false),
        hardcoded("display_name"@, AttributeType::String, true),
    ]
}

fn hardcoded_attribute(name: &str, attribute_type: AttributeType, is_editable: bool) -> (r: AttributeSchema)
    ensures
        r@ == hardcoded(name@, attribute_type, is_editable),
{
    AttributeSchema {
        name: name.to_owned(),
        attribute_type,
        is_list: false,
        is_visible: true,
        is_editable,
        is_hardcoded: true,
        is_readonly: !is_editable,
    }
}

/// Sorts the declarations by name; declarations of one name keep their order.
fn sort_by_name(list: Vec<AttributeSchema>) -> (r: Vec<AttributeSchema>)
    ensures
        stably_sorted_by(views(r@), views(list@), name_key()),
{
    let mut list = list;
    let ghost before = list@;
    stable_sort(&mut list);
    proof {
        lemma_stably_sorted_map(list@, before, rank_key::<AttributeSchema>(), view_of::<AttributeSchema>(), name_key());
    }
    list
}

/// The first declaration of a name is the first of the declarations with
/// that name.
pub proof fn lemma_declaration_is_first_of_name(list: Seq<AttributeSchemaView>, name: Seq<char>)
    ensures
        declaration_of(list, name) == if of_key(list, name_key(), name).len() > 0 {
            Some(of_key(list, name_key(), name)[0])
        } else {
            None
        },
    decreases list.len(),
{
    let pred = key_is(name_key(), name);
    if list.len() == 0 {
        assert(of_key(list, name_key(), name).len() == 0) by {
            list.lemma_filter_len(pred);
        }
    } else {
        let front = list.drop_last();
        let last = list.last();
        assert(list =~= front.push(last));
        lemma_declaration_is_first_of_name(front, name);
        front.lemma_filter_push(last, pred);
        if declares(front, name) {
            let w = choose|w: int| 0 <= w < front.len() && (#[trigger] front[w]).name == name;
            lemma_has_first_declaration(front, name, w);
            let i = choose|i: int| is_first_declaration(front, name, i);
            assert(front[i].name == name);
            lemma_declaration_at(front, name, i);
            assert(is_first_declaration(list, name, i)) by {
                assert forall|j: int| 0 <= j < i implies (#[trigger] list[j]).name != name by {
                    assert(front[j].name != name);
                }
            }
            lemma_declaration_at(list, name, i);
        } else if last.name == name {
            assert(is_first_declaration(list, name, list.len() - 1)) by {
                assert forall|j: int| 0 <= j < list.len() - 1 implies (#[trigger] list[j]).name != name by {
                    assert(front[j].name == list[j].name);
                }
            }
            lemma_declaration_at(list, name, list.len() - 1);
        } else {
            assert(!declares(list, name)) by {
                if declares(list, name) {
                    let i = choose|i: int| 0 <= i < list.len() && (#[trigger] list[i]).name == name;
                    assert(front[i].name == name);
                }
            }
        }
    }
}

/// Where a name is declared, it has a first declaration.
pub proof fn lemma_has_first_declaration(list: Seq<AttributeSchemaView>, name: Seq<char>, w: int)
    requires
        0 <= w < list.len(),
        list[w].name == name,
    ensures
        exists|i: int| is_first_declaration(list, name, i),
    decreases w,
{
    if forall|j: int| 0 <= j < w ==> (#[trigger] list[j]).name != name {
        assert(is_first_declaration(list, name, w));
    } else {
        let j = choose|j: int| 0 <= j < w && (#[trigger] list[j]).name == name;
        lemma_has_first_declaration(list, name, j);
    }
}

/// Ordering the declarations by name does not change what is looked up:
/// each name has the declaration that it had.
pub proof fn lemma_sorted_lookup(sorted: Seq<AttributeSchemaView>, list: Seq<AttributeSchemaView>, name: Seq<char>)
    requires
        stably_sorted_by(sorted, list, name_key()),
    ensures
        declaration_of(sorted, name) == declaration_of(list, name),
{
    lemma_declaration_is_first_of_name(sorted, name);
    lemma_declaration_is_first_of_name(list, name);
    assert(of_key(sorted, name_key(), name) == of_key(list, name_key(), name));
}

/// An attribute that the administrator has declared keeps its declaration
/// when other declarations are added behind.
pub proof fn lemma_lookup_in_front(base: Seq<AttributeSchemaView>, more: Seq<AttributeSchemaView>, name: Seq<char>)
    requires
        declares(base, name),
    ensures
        declaration_of(base + more, name) == declaration_of(base, name),
{
    let w = choose|w: int| 0 <= w < base.len() && (#[trigger] base[w]).name == name;
    lemma_has_first_declaration(base, name, w);
    let i = choose|i: int| is_first_declaration(base, name, i);
    lemma_declaration_at(base, name, i);
    let all = base + more;
    assert(is_first_declaration(all, name, i)) by {
        assert(all[i] == base[i]);
        assert forall|j: int| 0 <= j < i implies (#[trigger] all[j]).name != name by {
            assert(all[j] == base[j]);
        }
    }
    lemma_declaration_at(all, name, i);
}

/// Whether no two declarations have the same name.
pub open spec fn names_distinct(list: Seq<AttributeSchemaView>) -> bool {
    forall|i: int, j: int| 0 <= i < j < list.len() ==> (#[trigger] list[i]).name != (#[trigger] list[j]).name
}

/// Ordering declarations by name keeps their names distinct: where no name
/// is declared twice, by the administrator or by the administrator and as a
/// built-in attribute, none is declared twice in the ordered list.
pub proof fn lemma_sorted_names_distinct(sorted: Seq<AttributeSchemaView>, list: Seq<AttributeSchemaView>)
    requires
        stably_sorted_by(sorted, list, name_key()),
        names_distinct(list),
    ensures
        names_distinct(sorted),
{
    assert forall|i: int, j: int| 0 <= i < j < sorted.len() implies (#[trigger] sorted[i]).name != (
    #[trigger] sorted[j]).name by {
        let name = sorted[i].name;
        if sorted[j].name == name {
            let pred = key_is(name_key(), name);
            let a = sorted.take(j);
            let b = sorted.skip(j);
            assert(sorted =~= a + b);
            Seq::filter_distributes_over_add(a, b, pred);
            crate::seqs::lemma_filter_places(a, pred);
            crate::seqs::lemma_filter_places(b, pred);
            assert(a[i] == sorted[i] && pred(a[i]));
            assert(a.filter(pred).contains(a[i]));
            assert(b[0] == sorted[j] && pred(b[0]));
            assert(b.filter(pred).contains(b[0]));
            let both = of_key(list, name_key(), name);
            assert(both == of_key(sorted, name_key(), name));
            assert(both.len() >= 2);
            crate::seqs::lemma_filter_places(list, pred);
            assert(crate::seqs::in_order(list, both[0], both[1]));
            let (k, l) = choose|k: int, l: int| crate::seqs::stand_at(list, both[0], both[1], k, l);
            assert(pred(both[0]) && pred(both[1]));
            assert(list[k].name == list[l].name);
        }
    }
}

/// The administrator's declarations for users and for groups.
#[derive(Clone, Debug, PartialEq, Eq)]
pub struct Schema {
    pub user_attributes: AttributeList,
    pub group_attributes: AttributeList,
}

/// The mathematical value of a `Schema`.
pub struct SchemaView {
    pub user_attributes: Seq<AttributeSchemaView>,
    pub group_attributes: Seq<AttributeSchemaView>,
}

impl View for Schema {
    type V = SchemaView;

    open spec fn view(&self) -> SchemaView {
        SchemaView { user_attributes: self.user_attributes@, group_attributes: self.group_attributes@ }
    }
}

/// `merged` is `base` together with the built-in attributes, ordered by name.
/// Where a name is declared more than once, the declarations keep their
/// order, the administrator's before the built-in one.
pub open spec fn is_public_form(merged: SchemaView, base: SchemaView) -> bool {
    &&& stably_sorted_by(merged.user_attributes, base.user_attributes + user_builtins(), name_key())
    &&& stably_sorted_by(merged.group_attributes, base.group_attributes + group_builtins(), name_key())
}

/// Where declarations have been merged with built-in ones and ordered by
/// name: what the administrator has declared is looked up as before, every
/// name is looked up as in the administrator's declarations followed by the
/// built-in ones, and every built-in declaration is among the merged ones.
pub proof fn lemma_merged_declarations(
    merged: Seq<AttributeSchemaView>,
    base: Seq<AttributeSchemaView>,
    builtins: Seq<AttributeSchemaView>,
    name: Seq<char>,
)
    requires
        stably_sorted_by(merged, base + builtins, name_key()),
    ensures
        declares(base, name) ==> declaration_of(merged, name) == declaration_of(base, name),
        declaration_of(merged, name) == declaration_of(base + builtins, name),
        forall|i: int| 0 <= i < builtins.len() ==> merged.contains(#[trigger] builtins[i]),
{
    let all = base + builtins;
    lemma_sorted_lookup(merged, all, name);
    if declares(base, name) {
        lemma_lookup_in_front(base, builtins, name);
    }
    lemma_stably_sorted_is_permutation(merged, all, name_key());
    merged.to_multiset_ensures();
    all.to_multiset_ensures();
    assert forall|i: int| 0 <= i < builtins.len() implies merged.contains(#[trigger] builtins[i]) by {
        let b = builtins[i];
        assert(all[base.len() + i] == b);
        assert(all.contains(b));
        assert(all.to_multiset().count(b) > 0);
        assert(merged.to_multiset().count(b) > 0);
    }
}

/// The schema as the rest of the system sees it: the administrator's
/// declarations merged with the built-in ones, each list ordered by name.
#[derive(Clone, Debug, PartialEq, Eq)]
pub struct PublicSchema(Schema);

impl View for PublicSchema {
    type V = SchemaView;

    closed spec fn view(&self) -> SchemaView {
        self.0@
    }
}

impl PublicSchema {
    /// The merged lists.
    pub fn get_schema(&self) -> (r: &Schema)
        ensures
            r@ == self@,
    {
        &self.0
    }
}

/// What `from` returns is stated over views, in its own `ensures`: the
/// public form holds vectors, which ghost code cannot build.
impl FromSpecImpl<Schema> for PublicSchema {
    open spec fn obeys_from_spec() -> bool {
        false
    }

    open spec fn from_spec(schema: Schema) -> Self {
        arbitrary()
    }
}

impl From<Schema> for PublicSchema {
    /// Adds the built-in attributes to the administrator's declarations and
    /// orders each list by name.
    fn from(schema: Schema) -> (r: Self)
        ensures
            is_public_form(r@, schema@),
    {
        let ghost base = schema@;
        let mut users = schema.user_attributes.attributes;
        users.push(hardcoded_attribute("user_id", AttributeType::String, false));
        users.push(hardcoded_attribute("creation_date", AttributeType::DateTime, false));
        users.push(hardcoded_attribute("mail", AttributeType::String, true));
        users.push(hardcoded_attribute("uuid", AttributeType::String, false));
        users.push(hardcoded_attribute("display_name", AttributeType::String, true));
        assert(views(users@) =~= base.user_attributes + user_builtins());
        let users = sort_by_name(users);
        let mut groups = schema.group_attributes.attributes;
        groups.push(hardcoded_attribute("group_id", AttributeType::Integer, false));
        groups.push(hardcoded_attribute("creation_date", AttributeType::DateTime, false));
        groups.push(hardcoded_attribute("uuid", AttributeType::String, false));
        groups.push(hardcoded_attribute("display_name", AttributeType::String, true));
        assert(views(groups@) =~= base.group_attributes + group_builtins());
        let groups = sort_by_name(groups);
        PublicSchema(
            Schema {
                user_attributes: AttributeList { attributes: users },
                group_attributes: AttributeList { attributes: groups },
            },
        )
    }
}

/// Picks, from a schema, the declarations of one kind of entry.
pub trait SchemaAttributeExtractor: std::marker::Send {
    /// The list that this kind selects.
    spec fn selected(schema: SchemaView) -> Seq<AttributeSchemaView>;

    fn get_attributes(schema: &PublicSchema) -> (r: &AttributeList)
        ensures
            r@ == Self::selected(schema@),
    ;
}

/// Selects the declarations for users.
pub struct SchemaUserAttributeExtractor;

impl SchemaAttributeExtractor for SchemaUserAttributeExtractor {
    open spec fn selected(schema: SchemaView) -> Seq<AttributeSchemaView> {
        schema.user_attributes
    }

    fn get_attributes(schema: &PublicSchema) -> (r: &AttributeList) {
        &schema.get_schema().user_attributes
    }
}

/// Selects the declarations for groups.
pub struct SchemaGroupAttributeExtractor;

impl SchemaAttributeExtractor for SchemaGroupAttributeExtractor {
    open spec fn selected(schema: SchemaView) -> Seq<AttributeSchemaView> {
        schema.group_attributes
    }

    fn get_attributes(schema: &PublicSchema) -> (r: &AttributeList) {
        &schema.get_schema().group_attributes
    }
}

/// The type that `schema` declares for the attribute `name` of the kind `K`;
/// `None` where no such attribute is declared.
pub fn get_attribute_type<K: SchemaAttributeExtractor>(schema: &PublicSchema, name: &str) -> (r: Option<AttributeType>)
    ensures
        r == match declaration_of(K::selected(schema@), name@) {
            Some(a) => Some(a.attribute_type),
            None => None,
        },
{
    K::get_attributes(schema).get_attribute_type(name)
}

} // verus!
