//! Attaching attribute rows to listed groups in one sweep over both.
use vstd::prelude::*;
use itertools::Itertools;
use crate::codec::{decode_value, deserialize_attribute};
use crate::schema::{AttributeList, AttributeSchemaView, declaration_of};
use crate::seqs::{lemma_filter_all, lemma_filter_none};
use crate::tables::{AttributeRow, AttributeRowView};
use crate::types::{
    Attribute, AttributeView, DomainError, DomainErrorView, Group, GroupId, GroupView, views,
};

verus! {

/// What a stored attribute row holds, read against the schema.
pub open spec fn decoded_row(schema: Seq<AttributeSchemaView>, row: AttributeRowView) -> Result<
    AttributeView,
    DomainErrorView,
> {
    match declaration_of(schema, row.attribute_name) {
        None => Err(DomainErrorView::SchemaMismatch(row.attribute_name)),
        Some(d) => match decode_value(d.attribute_type, d.is_list, row.value) {
            Some(v) => Ok(AttributeView { name: row.attribute_name, value: v }),
            None => Err(DomainErrorView::DecodeError(row.attribute_name)),
        },
    }
}

/// What the rows hold, in their order; where rows cannot be read, the error
/// of the first such row.
pub open spec fn decoded_rows(schema: Seq<AttributeSchemaView>, rows: Seq<AttributeRowView>) -> Result<
    Seq<AttributeView>,
    DomainErrorView,
>
    decreases rows.len(),
{
    if rows.len() == 0 {
        Ok(Seq::empty())
    } else {
        match decoded_rows(schema, rows.drop_last()) {
            Err(e) => Err(e),
            Ok(done) => match decoded_row(schema, rows.last()) {
                Ok(a) => Ok(done.push(a)),
                Err(e) => Err(e),
            },
        }
    }
}

/// Whether the rows from `start` on begin with exactly `n` rows of the
/// group `id`.
pub open spec fn is_run(rows: Seq<AttributeRowView>, start: int, id: GroupId, n: int) -> bool {
    &&& 0 <= n
    &&& start + n <= rows.len()
    &&& forall|j: int| start <= j < start + n ==> (#[trigger] rows[j]).group_id == id
    &&& start + n < rows.len() ==> rows[start + n].group_id != id
}

/// Whether `row` belongs to the group `id`.
fn row_in_group(row: &AttributeRow, id: GroupId) -> (r: bool)
    ensures
        r == (row@.group_id == id),
{
    row.group_id.0 == id.0
}

/// Calls `take_while_ref` of `itertools` on the rows from `start` on, with
/// the test that a row belongs to the group. The adaptor hands out items
/// while the test accepts them and leaves the first rejected one in place;
/// the contract states the number of items handed out.
#[verifier::external_body]
fn rows_taken(rows: &Vec<AttributeRow>, start: usize, id: GroupId) -> (n: usize)
    requires
        start <= rows@.len(),
    ensures
        is_run(views(rows@), start as int, id, n as int),
{
    rows[start..].iter().take_while_ref(|row| row_in_group(row, id)).count()
}

/// The place where the run of rows of the group `id` that begins at `start`
/// ends.
pub open spec fn run_end(rows: Seq<AttributeRowView>, start: int, id: GroupId) -> int
    decreases rows.len() - start,
{
    if 0 <= start < rows.len() && rows[start].group_id == id {
        run_end(rows, start + 1, id)
    } else {
        start
    }
}

/// The run that begins at `start` is the one that `run_end` ends.
pub proof fn lemma_run_end(rows: Seq<AttributeRowView>, start: int, id: GroupId, n: int)
    requires
        0 <= start,
        is_run(rows, start, id, n),
    ensures
        run_end(rows, start, id) == start + n,
    decreases n,
{
    if n > 0 {
        assert(rows[start].group_id == id);
        lemma_run_end(rows, start + 1, id, n - 1);
    }
}

/// Where the sweep stands in `rows` when it comes to the group at place `i`:
/// behind the runs that it took for the groups before.
pub open spec fn sweep_start(ids: Seq<GroupId>, rows: Seq<AttributeRowView>, i: int) -> int
    decreases i,
{
    if i <= 0 {
        0
    } else {
        run_end(rows, sweep_start(ids, rows, i - 1), ids[i - 1])
    }
}

/// The rows that the sweep takes for the group at place `i`.
pub open spec fn swept(ids: Seq<GroupId>, rows: Seq<AttributeRowView>, i: int) -> Seq<AttributeRowView> {
    rows.subrange(sweep_start(ids, rows, i), sweep_start(ids, rows, i + 1))
}

/// The ids of the groups, in order.
pub open spec fn ids_of(groups: Seq<GroupView>) -> Seq<GroupId> {
    groups.map_values(|g: GroupView| g.id)
}

/// The group with other attributes.
pub open spec fn with_attributes(g: GroupView, attributes: Seq<AttributeView>) -> GroupView {
    GroupView { attributes, ..g }
}

/// The groups, each with what the rows swept for it hold; where rows cannot
/// be read, the error of the first such row.
pub open spec fn merged(schema: Seq<AttributeSchemaView>, groups: Seq<GroupView>, rows: Seq<AttributeRowView>, n: int) -> Result<
    Seq<GroupView>,
    DomainErrorView,
>
    decreases n,
{
    if n <= 0 {
        Ok(Seq::empty())
    } else {
        match merged(schema, groups, rows, n - 1) {
            Err(e) => Err(e),
            Ok(done) => match decoded_rows(schema, swept(ids_of(groups), rows, n - 1)) {
                Ok(attributes) => Ok(done.push(with_attributes(groups[n - 1], attributes))),
                Err(e) => Err(e),
            },
        }
    }
}

/// Reads the rows from `start` up to `end` against the schema; the first
/// row that cannot be read is the error.
pub fn decode_rows(rows: &Vec<AttributeRow>, start: usize, end: usize, schema: &AttributeList) -> (r: Result<
    Vec<Attribute>,
    DomainError,
>)
    requires
        start <= end <= rows@.len(),
    ensures
        match decoded_rows(schema@, views(rows@).subrange(start as int, end as int)) {
            Ok(attributes) => r matches Ok(v) && views(v@) == attributes,
            Err(e) => r matches Err(x) && x@ == e,
        },
{
    let ghost all = views(rows@);
    let mut out: Vec<Attribute> = Vec::new();
    let mut i: usize = start;
    assert(all.subrange(start as int, start as int) =~= Seq::<AttributeRowView>::empty());
    assert(views(out@) =~= Seq::<AttributeView>::empty());
    while i < end
        invariant
            start <= i <= end <= rows@.len(),
            all == views(rows@),
            decoded_rows(schema@, all.subrange(start as int, i as int)) == Ok::<Seq<AttributeView>, DomainErrorView>(
                views(out@),
            ),
        decreases end - i,
    {
        let ghost done = all.subrange(start as int, i as int);
        let ghost next = all.subrange(start as int, i + 1);
        assert(next.drop_last() =~= done);
        assert(next.last() == rows@[i as int]@);
        let row = &rows[i];
        match deserialize_attribute(row.attribute_name.clone(), row.value.as_slice(), schema) {
            Ok(a) => {
                assert(views(out@.push(a)) =~= views(out@).push(a@));
                out.push(a);
            },
            Err(e) => {
                proof {
                    lemma_decoded_rows_error(schema@, all.subrange(start as int, end as int), i - start);
                    assert(all.subrange(start as int, end as int).take(i - start + 1) =~= next);
                }
                return Err(e);
            },
        }
        i += 1;
    }
    Ok(out)
}

/// Where a front part of the rows cannot be read, the rows cannot be read,
/// and the error is that of the front part.
pub proof fn lemma_decoded_rows_error(schema: Seq<AttributeSchemaView>, rows: Seq<AttributeRowView>, i: int)
    requires
        0 <= i < rows.len(),
        decoded_rows(schema, rows.take(i + 1)) is Err,
    ensures
        decoded_rows(schema, rows) == decoded_rows(schema, rows.take(i + 1)),
    decreases rows.len(),
{
    if i + 1 < rows.len() {
        assert(rows.drop_last().take(i + 1) =~= rows.take(i + 1));
        lemma_decoded_rows_error(schema, rows.drop_last(), i);
    } else {
        assert(rows.take(i + 1) =~= rows);
    }
}

/// Attaches to each group the attributes that its rows hold.
///
/// The rows are swept once: for each group in turn, the rows that follow, as
/// long as they belong to it, are read against the schema and become its
/// attributes. The first row that cannot be read ends the sweep with its
/// error.
pub fn merge_attributes(groups: Vec<Group>, rows: &Vec<AttributeRow>, schema: &AttributeList) -> (r: Result<
    Vec<Group>,
    DomainError,
>)
    ensures
        match merged(schema@, views(groups@), views(rows@), groups@.len() as int) {
            Ok(out) => r matches Ok(v) && views(v@) == out,
            Err(e) => r matches Err(x) && x@ == e,
        },
{
    let ghost gs = views(groups@);
    let ghost all = views(rows@);
    let ghost ids = ids_of(gs);
    let mut rest = groups;
    let mut out: Vec<Group> = Vec::new();
    let n = rest.len();
    let total = rows.len();
    let mut pos: usize = 0;
    let mut i: usize = 0;
    assert(views(out@) =~= Seq::<GroupView>::empty());
    while i < n
        invariant
            i <= n,
            n == gs.len(),
            gs == views(groups@),
            rest@.len() == n - i,
            views(rest@) == gs.skip(i as int),
            all == views(rows@),
            ids == ids_of(gs),
            pos <= rows@.len(),
            total == rows@.len(),
            pos == sweep_start(ids, all, i as int),
            merged(schema@, gs, all, i as int) == Ok::<Seq<GroupView>, DomainErrorView>(views(out@)),
        decreases n - i,
    {
        let ghost before = rest@;
        let group = rest.remove(0);
        assert(group@ == gs[i as int]) by {
            assert(gs.skip(i as int)[0] == gs[i as int]);
            assert(views(before)[0] == before[0]@);
        }
        assert(views(rest@) =~= gs.skip(i + 1)) by {
            assert forall|k: int| 0 <= k < rest@.len() implies views(rest@)[k] == gs.skip(i + 1)[k] by {
                assert(rest@[k] == before[k + 1]);
                assert(views(before)[k + 1] == before[k + 1]@);
                assert(gs.skip(i as int)[k + 1] == gs[i + k + 1]);
            }
        }
        let taken = rows_taken(rows, pos, group.id);
        proof {
            assert(ids[i as int] == group.id);
            lemma_run_end(all, pos as int, group.id, taken as int);
        }
        let end = pos + taken;
        match decode_rows(rows, pos, end, schema) {
            Ok(attributes) => {
                let with = Group { attributes, ..group };
                assert(with@ == with_attributes(gs[i as int], views(attributes@)));
                assert(views(out@.push(with)) =~= views(out@).push(with@));
                out.push(with);
            },
            Err(e) => {
                proof {
                    lemma_merged_error(schema@, gs, all, i + 1, n as int);
                }
                return Err(e);
            },
        }
        pos = end;
        i += 1;
    }
    Ok(out)
}

/// Once the sweep has failed, it stays failed with the same error.
pub proof fn lemma_merged_error(schema: Seq<AttributeSchemaView>, groups: Seq<GroupView>, rows: Seq<AttributeRowView>, i: int, n: int)
    requires
        0 <= i <= n,
        merged(schema, groups, rows, i) is Err,
    ensures
        merged(schema, groups, rows, n) == merged(schema, groups, rows, i),
    decreases n - i,
{
    if i < n {
        lemma_merged_error(schema, groups, rows, i, n - 1);
    }
}

/// The test that a row belongs to the group `id`.
pub open spec fn in_group(id: GroupId) -> spec_fn(AttributeRowView) -> bool {
    |r: AttributeRowView| r.group_id == id
}

/// The rows of the group `id`, in their order.
pub open spec fn rows_of_group(rows: Seq<AttributeRowView>, id: GroupId) -> Seq<AttributeRowView> {
    rows.filter(in_group(id))
}

/// The ids grow from each group to the next.
pub open spec fn ids_increasing(ids: Seq<GroupId>) -> bool {
    forall|a: int, b: int| 0 <= a < b < ids.len() ==> (#[trigger] ids[a]).0 < (#[trigger] ids[b]).0
}

/// The rows stand in the order of their group ids, and each belongs to one
/// of the groups `ids`.
pub open spec fn rows_follow(rows: Seq<AttributeRowView>, ids: Seq<GroupId>) -> bool {
    &&& forall|x: int, y: int|
        0 <= x < y < rows.len() ==> (#[trigger] rows[x]).group_id.0 <= (#[trigger] rows[y]).group_id.0
    &&& forall|x: int| 0 <= x < rows.len() ==> ids.contains((#[trigger] rows[x]).group_id)
}

proof fn lemma_run_end_is_run(rows: Seq<AttributeRowView>, start: int, id: GroupId)
    requires
        0 <= start <= rows.len(),
    ensures
        is_run(rows, start, id, run_end(rows, start, id) - start),
    decreases rows.len() - start,
{
    if start < rows.len() && rows[start].group_id == id {
        lemma_run_end_is_run(rows, start + 1, id);
    }
}

/// When the sweep comes to a group, it has passed exactly the rows of the
/// groups before.
proof fn lemma_sweep_bounds(ids: Seq<GroupId>, rows: Seq<AttributeRowView>, i: int)
    requires
        ids_increasing(ids),
        rows_follow(rows, ids),
        0 <= i <= ids.len(),
    ensures
        0 <= sweep_start(ids, rows, i) <= rows.len(),
        forall|x: int|
            0 <= x < sweep_start(ids, rows, i) ==> exists|a: int|
                0 <= a < i && #[trigger] ids[a] == (#[trigger] rows[x]).group_id,
        forall|x: int, a: int|
            sweep_start(ids, rows, i) <= x < rows.len() && 0 <= a < i ==> (#[trigger] rows[x]).group_id
                != #[trigger] ids[a],
    decreases i,
{
    if i > 0 {
        lemma_sweep_bounds(ids, rows, i - 1);
        let p = sweep_start(ids, rows, i - 1);
        let e = sweep_start(ids, rows, i);
        let id = ids[i - 1];
        lemma_run_end_is_run(rows, p, id);
        assert forall|x: int| 0 <= x < e implies exists|a: int|
            0 <= a < i && #[trigger] ids[a] == (#[trigger] rows[x]).group_id by {
            if x < p {
                let a = choose|a: int| 0 <= a < i - 1 && #[trigger] ids[a] == rows[x].group_id;
                assert(ids[a] == rows[x].group_id);
            } else {
                assert(ids[i - 1] == rows[x].group_id);
            }
        }
        assert forall|x: int, a: int| e <= x < rows.len() && 0 <= a < i implies (#[trigger] rows[x]).group_id
            != #[trigger] ids[a] by {
            if a == i - 1 {
                let first = rows[e].group_id;
                assert(ids.contains(first));
                let b = choose|b: int| 0 <= b < ids.len() && ids[b] == first;
                assert(first != id);
                if b < i - 1 {
                    assert(rows[e].group_id != ids[b]);
                }
                assert(ids[i - 1].0 < ids[b].0);
                if x > e {
                    assert(rows[e].group_id.0 <= rows[x].group_id.0);
                }
            }
        }
    }
}

/// Where the groups stand in the order of their ids and the rows follow
/// them, the sweep takes for each group exactly the rows of that group.
pub proof fn lemma_sweep_takes_group_rows(ids: Seq<GroupId>, rows: Seq<AttributeRowView>, i: int)
    requires
        ids_increasing(ids),
        rows_follow(rows, ids),
        0 <= i < ids.len(),
    ensures
        swept(ids, rows, i) == rows_of_group(rows, ids[i]),
{
    let p = sweep_start(ids, rows, i);
    let e = sweep_start(ids, rows, i + 1);
    let id = ids[i];
    let pred = in_group(id);
    lemma_sweep_bounds(ids, rows, i);
    lemma_sweep_bounds(ids, rows, i + 1);
    lemma_run_end_is_run(rows, p, id);
    let a = rows.take(p);
    let b = rows.subrange(p, e);
    let c = rows.skip(e);
    assert(rows =~= a + b + c);
    Seq::filter_distributes_over_add(a + b, c, pred);
    Seq::filter_distributes_over_add(a, b, pred);
    assert forall|x: int| 0 <= x < a.len() implies !pred(#[trigger] a[x]) by {
        let w = choose|w: int| 0 <= w < i && #[trigger] ids[w] == rows[x].group_id;
        assert(ids[w].0 < ids[i].0);
    }
    assert forall|x: int| 0 <= x < c.len() implies !pred(#[trigger] c[x]) by {
        assert(c[x] == rows[e + x]);
        assert(rows[e + x].group_id != ids[i]);
    }
    assert forall|x: int| 0 <= x < b.len() implies pred(#[trigger] b[x]) by {
        assert(b[x] == rows[p + x]);
    }
    lemma_filter_none(a, pred);
    lemma_filter_none(c, pred);
    lemma_filter_all(b, pred);
    assert(a.filter(pred) + b.filter(pred) + c.filter(pred) =~= b);
}

/// Reading rows that are two sequences, one after the other: where the
/// first cannot be read, its error; else what both hold, or the error of
/// the second.
pub proof fn lemma_decoded_rows_concat(schema: Seq<AttributeSchemaView>, a: Seq<AttributeRowView>, b: Seq<AttributeRowView>)
    ensures
        decoded_rows(schema, a + b) == match decoded_rows(schema, a) {
            Err(e) => Err(e),
            Ok(x) => match decoded_rows(schema, b) {
                Ok(y) => Ok(x + y),
                Err(e) => Err(e),
            },
        },
    decreases b.len(),
{
    if b.len() == 0 {
        assert(a + b =~= a);
        if decoded_rows(schema, a) is Ok {
            assert(decoded_rows(schema, a)->Ok_0 + Seq::<AttributeView>::empty() =~= decoded_rows(schema, a)->Ok_0);
        }
    } else {
        lemma_decoded_rows_concat(schema, a, b.drop_last());
        assert((a + b).drop_last() =~= a + b.drop_last());
        assert((a + b).last() == b.last());
        if decoded_rows(schema, a) is Ok && decoded_rows(schema, b.drop_last()) is Ok && decoded_row(
            schema,
            b.last(),
        ) is Ok {
            let x = decoded_rows(schema, a)->Ok_0;
            let y = decoded_rows(schema, b.drop_last())->Ok_0;
            let z = decoded_row(schema, b.last())->Ok_0;
            assert((x + y).push(z) =~= x + y.push(z));
        }
    }
}

/// Where the groups stand in the order of their ids and the rows follow
/// them, the sweep comes to the end of the rows.
pub proof fn lemma_sweep_ends(ids: Seq<GroupId>, rows: Seq<AttributeRowView>)
    requires
        ids_increasing(ids),
        rows_follow(rows, ids),
    ensures
        sweep_start(ids, rows, ids.len() as int) == rows.len(),
{
    let n = ids.len() as int;
    lemma_sweep_bounds(ids, rows, n);
    let p = sweep_start(ids, rows, n);
    if p < rows.len() {
        assert(ids.contains(rows[p].group_id));
        let a = choose|a: int| 0 <= a < ids.len() && ids[a] == rows[p].group_id;
        assert(rows[p].group_id != ids[a]);
    }
}

/// Whether the rows of the group at the place `k` can be read, and the
/// group at that place of `out` is that group with what they hold.
pub open spec fn attached(
    schema: Seq<AttributeSchemaView>,
    groups: Seq<GroupView>,
    rows: Seq<AttributeRowView>,
    out: Seq<GroupView>,
    k: int,
) -> bool {
    &&& decoded_rows(schema, rows_of_group(rows, groups[k].id)) is Ok
    &&& out[k] == with_attributes(groups[k], decoded_rows(schema, rows_of_group(rows, groups[k].id))->Ok_0)
}

/// Where the groups stand in the order of their ids and the rows follow
/// them: after `i` groups the sweep has failed exactly if the rows that it
/// has passed cannot be read, with the same error; and where it has not
/// failed, each of the `i` groups has got what the rows of that group hold.
pub proof fn lemma_merged_prefix(schema: Seq<AttributeSchemaView>, groups: Seq<GroupView>, rows: Seq<AttributeRowView>, i: int)
    requires
        ids_increasing(ids_of(groups)),
        rows_follow(rows, ids_of(groups)),
        0 <= i <= groups.len(),
    ensures
        0 <= sweep_start(ids_of(groups), rows, i) <= rows.len(),
        match merged(schema, groups, rows, i) {
            Err(e) => decoded_rows(schema, rows.take(sweep_start(ids_of(groups), rows, i))) == Err::<
                Seq<AttributeView>,
                DomainErrorView,
            >(e),
            Ok(out) => {
                &&& decoded_rows(schema, rows.take(sweep_start(ids_of(groups), rows, i))) is Ok
                &&& out.len() == i
                &&& forall|k: int| 0 <= k < i ==> #[trigger] attached(schema, groups, rows, out, k)
            },
        },
    decreases i,
{
    let ids = ids_of(groups);
    lemma_sweep_bounds(ids, rows, i);
    if i == 0 {
        assert(rows.take(0) =~= Seq::<AttributeRowView>::empty());
    } else {
        lemma_merged_prefix(schema, groups, rows, i - 1);
        lemma_sweep_bounds(ids, rows, i - 1);
        let p = sweep_start(ids, rows, i - 1);
        let e = sweep_start(ids, rows, i);
        lemma_run_end_is_run(rows, p, ids[i - 1]);
        lemma_sweep_takes_group_rows(ids, rows, i - 1);
        assert(ids[i - 1] == groups[i - 1].id);
        assert(rows.take(e) =~= rows.take(p) + swept(ids, rows, i - 1));
        lemma_decoded_rows_concat(schema, rows.take(p), swept(ids, rows, i - 1));
        match merged(schema, groups, rows, i - 1) {
            Ok(done) => {
                match decoded_rows(schema, swept(ids, rows, i - 1)) {
                    Ok(attributes) => {
                        let out = done.push(with_attributes(groups[i - 1], attributes));
                        assert forall|k: int| 0 <= k < i implies #[trigger] attached(schema, groups, rows, out, k) by {
                            if k < i - 1 {
                                assert(attached(schema, groups, rows, done, k));
                                assert(out[k] == done[k]);
                            }
                        }
                    },
                    Err(_) => {},
                }
            },
            Err(_) => {},
        }
    }
}

} // verus!
