use vstd::prelude::*;
use std::collections::HashMap;

verus! {

/// The contributions of one ranked list: `(id, k + rank)` for each present
/// id, in list order, where the rank counts every position from 1 (absent
/// entries take a rank but contribute nothing).
pub open spec fn leg_entries(leg: Seq<Option<i64>>, k: int) -> Seq<(i64, int)>
    decreases leg.len(),
{
    if leg.len() == 0 {
        Seq::empty()
    } else {
        let init = leg_entries(leg.drop_last(), k);
        match leg.last() {
            Some(id) => init.push((id, k + leg.len())),
            None => init,
        }
    }
}

/// Whether some group already has id `id`.
pub open spec fn has_group(groups: Seq<(i64, Seq<int>)>, id: i64) -> bool {
    exists|p: int| 0 <= p < groups.len() && #[trigger] groups[p].0 == id
}

/// Adds one contribution to the group of its id, opening a group after the
/// others for an id seen for the first time.
pub open spec fn add_entry(groups: Seq<(i64, Seq<int>)>, e: (i64, int)) -> Seq<(i64, Seq<int>)> {
    if has_group(groups, e.0) {
        let p = choose|p: int| 0 <= p < groups.len() && #[trigger] groups[p].0 == e.0;
        groups.update(p, (e.0, groups[p].1.push(e.1)))
    } else {
        groups.push((e.0, seq![e.1]))
    }
}

/// Contributions grouped by id, ids in order of first appearance, each
/// group's denominators in order of appearance.
pub open spec fn group_entries(es: Seq<(i64, int)>) -> Seq<(i64, Seq<int>)>
    decreases es.len(),
{
    if es.len() == 0 {
        Seq::empty()
    } else {
        add_entry(group_entries(es.drop_last()), es.last())
    }
}

/// Reciprocal rank fusion of two ranked lists, before any arithmetic on
/// fractions: for each id, the denominators `k + rank` of its terms
/// `1 / (k + rank)`, first those of the first list, then those of the second.
pub open spec fn rrf_groups(first: Seq<Option<i64>>, second: Seq<Option<i64>>, k: int) -> Seq<(i64, Seq<int>)> {
    group_entries(leg_entries(first, k) + leg_entries(second, k))
}

/// Rank fusion was asked with a constant `k` that is not positive.
#[derive(Debug, Clone, Copy, PartialEq, Eq, Structural)]
pub enum RrfError {
    NonPositiveK(i32),
}

/// The groups as plain values.
pub open spec fn groups_view(g: Seq<(i64, Vec<u64>)>) -> Seq<(i64, Seq<int>)> {
    g.map_values(|x: (i64, Vec<u64>)| (x.0, x.1@.map_values(|d: u64| d as int)))
}

pub open spec fn distinct_ids(g: Seq<(i64, Seq<int>)>) -> bool {
    forall|p: int, q: int|
        0 <= p < g.len() && 0 <= q < g.len() && p != q ==> #[trigger] g[p].0 != #[trigger] g[q].0
}

/// The id index points at each group: an id is a key exactly when it has a
/// group, and its value is that group's position.
pub open spec fn index_ok(m: Map<i64, usize>, g: Seq<(i64, Seq<int>)>) -> bool {
    &&& forall|id: i64|
        #![trigger m.contains_key(id)]
        #![trigger has_group(g, id)]
        m.contains_key(id) <==> has_group(g, id)
    &&& forall|id: i64| #[trigger]
        m.contains_key(id) ==> m[id] < g.len() && g[m[id] as int].0 == id
}

/// Adds the entries of one list to the groups.
fn add_leg(
    groups: &mut Vec<(i64, Vec<u64>)>,
    index: &mut HashMap<i64, usize>,
    leg: &[Option<i64>],
    k: i32,
)
    requires
        k > 0,
        leg@.len() + 0x8000_0000 < u64::MAX,
        distinct_ids(groups_view(old(groups)@)),
        index_ok(old(index)@, groups_view(old(groups)@)),
    ensures
        distinct_ids(groups_view(final(groups)@)),
        index_ok(final(index)@, groups_view(final(groups)@)),
        groups_view(final(groups)@) == groups_view_after(
            groups_view(old(groups)@),
            leg_entries(leg@, k as int),
        ),
{
    broadcast use vstd::std_specs::hash::group_hash_axioms;

    let ghost start = groups_view(groups@);
    let mut i: usize = 0;
    while i < leg.len()
        invariant
            k > 0,
            leg@.len() + 0x8000_0000 < u64::MAX,
            i <= leg@.len(),
            distinct_ids(groups_view(groups@)),
            index_ok(index@, groups_view(groups@)),
            groups_view(groups@) == groups_view_after(start, leg_entries(leg@.take(i as int), k as int)),
        decreases leg.len() - i,
    {
        proof {
            assert(leg@.take(i + 1).drop_last() =~= leg@.take(i as int));
            assert(leg@.take(i + 1).last() == leg@[i as int]);
        }
        if let Some(id) = leg[i] {
            let d: u64 = k as u64 + i as u64 + 1;
            let ghost before = groups_view(groups@);
            proof {
                lemma_after_push(start, leg_entries(leg@.take(i as int), k as int), (id, d as int));
            }
            match index.get(&id) {
                Some(pos) => {
                    let p = *pos;
                    let ghost old_groups = groups@;
                    proof {
                        assert(index@.contains_key(id));
                        assert(p == index@[id]);
                    }
                    groups[p].1.push(d);
                    proof {
                        assert(groups@[p as int].1@ == old_groups[p as int].1@.push(d));
                        assert(groups@[p as int].0 == id);
                        assert(groups@.len() == old_groups.len());
                        assert forall|q: int| 0 <= q < groups@.len() && q != p implies groups@[q]
                            == old_groups[q] by {}
                        assert(before == groups_view(old_groups));
                        assert(before[p as int].0 == id);
                        assert(has_group(before, id));
                        let c = choose|c: int| 0 <= c < before.len() && #[trigger] before[c].0 == id;
                        if c != p {
                            assert(before[c].0 != before[p as int].0);
                        }
                        assert(c == p);
                        assert(groups@[p as int].1@.map_values(|d: u64| d as int) =~= before[p as int].1.push(
                            d as int,
                        ));
                        let after = groups_view(groups@);
                        assert(after =~= before.update(
                            p as int,
                            (id, before[p as int].1.push(d as int)),
                        ));
                        assert forall|x: i64| has_group(after, x) <==> has_group(before, x) by {
                            if has_group(after, x) {
                                let q = choose|q: int| 0 <= q < after.len() && #[trigger] after[q].0 == x;
                                assert(before[q].0 == x);
                            }
                            if has_group(before, x) {
                                let q = choose|q: int| 0 <= q < before.len() && #[trigger] before[q].0 == x;
                                assert(after[q].0 == x);
                            }
                        }
                        assert forall|x: i64| #[trigger] index@.contains_key(x) implies index@[x] < after.len()
                            && after[index@[x] as int].0 == x by {
                            assert(before[index@[x] as int].0 == x);
                        }
                    }
                },
                None => {
                    let pos = groups.len();
                    let mut ds: Vec<u64> = Vec::new();
                    ds.push(d);
                    let ghost old_groups = groups@;
                    let ghost old_index = index@;
                    groups.push((id, ds));
                    index.insert(id, pos);
                    proof {
                        assert(!old_index.contains_key(id));
                        assert(!has_group(before, id));
                        assert(ds@.map_values(|d: u64| d as int) =~= seq![d as int]);
                        assert(groups@ == old_groups.push((id, ds)));
                        let after = groups_view(groups@);
                        assert(after =~= before.push((id, seq![d as int])));
                        assert forall|x: i64| has_group(after, x) <==> (has_group(before, x) || x == id) by {
                            if has_group(after, x) {
                                let q = choose|q: int| 0 <= q < after.len() && #[trigger] after[q].0 == x;
                                if q < before.len() {
                                    assert(before[q].0 == x);
                                }
                            }
                            if has_group(before, x) {
                                let q = choose|q: int| 0 <= q < before.len() && #[trigger] before[q].0 == x;
                                assert(after[q].0 == x);
                            }
                            if x == id {
                                assert(after[before.len() as int].0 == x);
                            }
                        }
                        assert forall|x: i64| #[trigger] index@.contains_key(x) implies index@[x] < after.len()
                            && after[index@[x] as int].0 == x by {
                            if x != id {
                                assert(old_index.contains_key(x));
                                assert(before[old_index[x] as int].0 == x);
                            }
                        }
                        assert forall|x: i64| index@.contains_key(x) <==> has_group(after, x) by {
                            if x != id {
                                assert(index@.contains_key(x) == old_index.contains_key(x));
                            }
                        }
                    }
                },
            }
        } else {
            proof {
                assert(leg_entries(leg@.take(i + 1), k as int) == leg_entries(leg@.take(i as int), k as int));
            }
        }
        i = i + 1;
    }
    proof {
        assert(leg@.take(i as int) =~= leg@);
    }
}

/// The groups after adding the entries `es` one by one.
pub open spec fn groups_view_after(groups: Seq<(i64, Seq<int>)>, es: Seq<(i64, int)>) -> Seq<(i64, Seq<int>)>
    decreases es.len(),
{
    if es.len() == 0 {
        groups
    } else {
        add_entry(groups_view_after(groups, es.drop_last()), es.last())
    }
}

proof fn lemma_after_push(groups: Seq<(i64, Seq<int>)>, es: Seq<(i64, int)>, e: (i64, int))
    ensures
        groups_view_after(groups, es.push(e)) == add_entry(groups_view_after(groups, es), e),
{
    assert(es.push(e).drop_last() =~= es);
}

proof fn lemma_after_concat(
    groups: Seq<(i64, Seq<int>)>,
    es1: Seq<(i64, int)>,
    es2: Seq<(i64, int)>,
)
    ensures
        groups_view_after(groups, es1 + es2) == groups_view_after(
            groups_view_after(groups, es1),
            es2,
        ),
    decreases es2.len(),
{
    if es2.len() == 0 {
        assert(es1 + es2 =~= es1);
    } else {
        lemma_after_concat(groups, es1, es2.drop_last());
        assert((es1 + es2).drop_last() =~= es1 + es2.drop_last());
        assert((es1 + es2).last() == es2.last());
    }
}

proof fn lemma_after_empty(es: Seq<(i64, int)>)
    ensures
        groups_view_after(Seq::empty(), es) == group_entries(es),
    decreases es.len(),
{
    if es.len() > 0 {
        lemma_after_empty(es.drop_last());
    }
}

/// Reciprocal rank fusion terms of two ranked id lists (`None` entries take
/// a rank but contribute nothing): for each id, in order of first
/// appearance, the denominators `k + rank` of its terms `1 / (k + rank)`.
/// `k` must be positive.
pub fn rrf_terms(first: &[Option<i64>], second: &[Option<i64>], k: i32) -> (r: Result<
    Vec<(i64, Vec<u64>)>,
    RrfError,
>)
    requires
        first@.len() + 0x8000_0000 < u64::MAX,
        second@.len() + 0x8000_0000 < u64::MAX,
    ensures
        k <= 0 ==> r == Err::<Vec<(i64, Vec<u64>)>, RrfError>(RrfError::NonPositiveK(k)),
        k > 0 ==> (r matches Ok(g) && groups_view(g@) == rrf_groups(first@, second@, k as int)),
{
    if k <= 0 {
        return Err(RrfError::NonPositiveK(k));
    }
    broadcast use vstd::std_specs::hash::group_hash_axioms;

    let mut groups: Vec<(i64, Vec<u64>)> = Vec::new();
    let mut index: HashMap<i64, usize> = HashMap::new();
    proof {
        assert(groups_view(groups@) =~= Seq::<(i64, Seq<int>)>::empty());
        assert(index@ == Map::<i64, usize>::empty());
    }
    add_leg(&mut groups, &mut index, first, k);
    add_leg(&mut groups, &mut index, second, k);
    proof {
        let e1 = leg_entries(first@, k as int);
        let e2 = leg_entries(second@, k as int);
        lemma_after_concat(Seq::empty(), e1, e2);
        lemma_after_empty(e1 + e2);
    }
    Ok(groups)
}

/// Whether `id` occurs in a ranked list.
pub open spec fn in_leg(leg: Seq<Option<i64>>, id: i64) -> bool {
    exists|i: int| 0 <= i < leg.len() && #[trigger] leg[i] == Some(id)
}

/// Whether `id` has a contribution among `es`.
pub open spec fn in_entries(es: Seq<(i64, int)>, id: i64) -> bool {
    exists|j: int| 0 <= j < es.len() && #[trigger] es[j].0 == id
}

proof fn lemma_leg_entries_ids(leg: Seq<Option<i64>>, k: int)
    ensures
        forall|id: i64|
            #[trigger] in_entries(leg_entries(leg, k), id) <==> in_leg(leg, id),
        forall|j: int|
            0 <= j < leg_entries(leg, k).len() ==> #[trigger] leg_entries(leg, k)[j].1 > k,
    decreases leg.len(),
{
    if leg.len() > 0 {
        let init = leg.drop_last();
        lemma_leg_entries_ids(init, k);
        let es = leg_entries(leg, k);
        let ei = leg_entries(init, k);
        assert(es == match leg.last() {
            Some(x) => ei.push((x, k + leg.len())),
            None => ei,
        });
        assert(forall|j: int| 0 <= j < ei.len() ==> #[trigger] es[j] == ei[j]);
        assert(forall|i: int| 0 <= i < init.len() ==> #[trigger] init[i] == leg[i]);
        assert forall|id: i64|
            #[trigger] in_entries(es, id) <==> in_leg(leg, id) by {
            if in_entries(es, id) {
                let j = choose|j: int| 0 <= j < es.len() && #[trigger] es[j].0 == id;
                if j < ei.len() {
                    assert(ei[j].0 == id);
                    assert(in_entries(ei, id));
                    let i = choose|i: int| 0 <= i < init.len() && #[trigger] init[i] == Some(id);
                    assert(leg[i] == Some(id));
                } else {
                    assert(leg[leg.len() - 1] == Some(id));
                }
            }
            if in_leg(leg, id) {
                let i = choose|i: int| 0 <= i < leg.len() && #[trigger] leg[i] == Some(id);
                if i < leg.len() - 1 {
                    assert(init[i] == Some(id));
                    assert(in_leg(init, id));
                    assert(in_entries(ei, id));
                    let j = choose|j: int| 0 <= j < ei.len() && #[trigger] ei[j].0 == id;
                    assert(es[j] == ei[j]);
                    assert(es[j].0 == id);
                } else {
                    assert(es[es.len() - 1].0 == id);
                }
            }
        }
        assert forall|j: int| 0 <= j < es.len() implies #[trigger] es[j].1 > k by {
            if j < ei.len() {
                assert(es[j] == ei[j]);
            }
        }
    }
}

proof fn lemma_group_entries_shape(es: Seq<(i64, int)>, k: int)
    requires
        forall|j: int| 0 <= j < es.len() ==> #[trigger] es[j].1 > k,
    ensures
        distinct_ids(group_entries(es)),
        forall|id: i64|
            #[trigger] has_group(group_entries(es), id) <==> in_entries(es, id),
        forall|p: int, j: int|
            0 <= p < group_entries(es).len() && 0 <= j < group_entries(es)[p].1.len()
                ==> #[trigger] group_entries(es)[p].1[j] > k,
    decreases es.len(),
{
    if es.len() > 0 {
        let init = es.drop_last();
        assert forall|j: int| 0 <= j < init.len() implies #[trigger] init[j].1 > k by {
            assert(init[j] == es[j]);
        }
        lemma_group_entries_shape(init, k);
        let g = group_entries(init);
        let e = es.last();
        let r = group_entries(es);
        assert(e.1 > k);
        if has_group(g, e.0) {
            let p = choose|p: int| 0 <= p < g.len() && #[trigger] g[p].0 == e.0;
            assert(r == g.update(p, (e.0, g[p].1.push(e.1))));
            assert forall|a: int, b: int|
                0 <= a < r.len() && 0 <= b < r.len() && a != b implies #[trigger] r[a].0
                != #[trigger] r[b].0 by {
                assert(r[a].0 == g[a].0);
                assert(r[b].0 == g[b].0);
            }
            assert forall|q: int, j: int|
                0 <= q < r.len() && 0 <= j < r[q].1.len() implies #[trigger] r[q].1[j] > k by {
                if q != p {
                    assert(r[q] == g[q]);
                } else if j < g[p].1.len() {
                    assert(r[q].1[j] == g[p].1[j]);
                }
            }
            assert forall|id: i64| #[trigger] has_group(r, id) <==> in_entries(es, id) by {
                if has_group(r, id) {
                    let q = choose|q: int| 0 <= q < r.len() && #[trigger] r[q].0 == id;
                    assert(g[q].0 == id);
                    assert(has_group(g, id));
                    let j = choose|j: int| 0 <= j < init.len() && #[trigger] init[j].0 == id;
                    assert(es[j] == init[j]);
                }
                if in_entries(es, id) {
                    let j = choose|j: int| 0 <= j < es.len() && #[trigger] es[j].0 == id;
                    if j < init.len() {
                        assert(init[j] == es[j]);
                        assert(has_group(g, id));
                        let q = choose|q: int| 0 <= q < g.len() && #[trigger] g[q].0 == id;
                        assert(r[q].0 == id);
                    } else {
                        assert(r[p].0 == id);
                    }
                }
            }
        } else {
            assert(r == g.push((e.0, seq![e.1])));
            assert forall|a: int, b: int|
                0 <= a < r.len() && 0 <= b < r.len() && a != b implies #[trigger] r[a].0
                != #[trigger] r[b].0 by {
                if a < g.len() && b < g.len() {
                    assert(r[a] == g[a]);
                    assert(r[b] == g[b]);
                } else if a < g.len() {
                    assert(r[a] == g[a]);
                } else {
                    assert(r[b] == g[b]);
                }
            }
            assert forall|q: int, j: int|
                0 <= q < r.len() && 0 <= j < r[q].1.len() implies #[trigger] r[q].1[j] > k by {
                if q < g.len() {
                    assert(r[q] == g[q]);
                }
            }
            assert forall|id: i64| #[trigger] has_group(r, id) <==> in_entries(es, id) by {
                if has_group(r, id) {
                    let q = choose|q: int| 0 <= q < r.len() && #[trigger] r[q].0 == id;
                    if q < g.len() {
                        assert(r[q] == g[q]);
                        assert(has_group(g, id));
                        let j = choose|j: int| 0 <= j < init.len() && #[trigger] init[j].0 == id;
                        assert(es[j] == init[j]);
                    } else {
                        assert(es[es.len() - 1].0 == id);
                    }
                }
                if in_entries(es, id) {
                    let j = choose|j: int| 0 <= j < es.len() && #[trigger] es[j].0 == id;
                    if j < init.len() {
                        assert(init[j] == es[j]);
                        assert(has_group(g, id));
                        let q = choose|q: int| 0 <= q < g.len() && #[trigger] g[q].0 == id;
                        assert(r[q] == g[q]);
                    } else {
                        assert(r[r.len() - 1].0 == id);
                    }
                }
            }
        }
    }
}

/// Shape of the fused terms: each id occurs in one group only; an id has a
/// group exactly when it occurs in one of the two lists; and every
/// denominator exceeds `k` (each term is below `1 / k`).
pub proof fn law_rrf_groups_shape(first: Seq<Option<i64>>, second: Seq<Option<i64>>, k: int)
    ensures
        distinct_ids(rrf_groups(first, second, k)),
        forall|id: i64|
            #[trigger] has_group(rrf_groups(first, second, k), id) <==> (in_leg(first, id)
                || in_leg(second, id)),
        forall|p: int, j: int|
            0 <= p < rrf_groups(first, second, k).len() && 0 <= j < rrf_groups(
                first,
                second,
                k,
            )[p].1.len() ==> #[trigger] rrf_groups(first, second, k)[p].1[j] > k,
{
    let e1 = leg_entries(first, k);
    let e2 = leg_entries(second, k);
    lemma_leg_entries_ids(first, k);
    lemma_leg_entries_ids(second, k);
    let es = e1 + e2;
    assert forall|j: int| 0 <= j < es.len() implies #[trigger] es[j].1 > k by {
        if j < e1.len() {
            assert(es[j] == e1[j]);
        } else {
            assert(es[j] == e2[j - e1.len()]);
        }
    }
    lemma_group_entries_shape(es, k);
    assert forall|id: i64| #[trigger] in_entries(es, id) <==> (
    in_entries(e1, id) || in_entries(e2, id)) by {
        if in_entries(es, id) {
            let j = choose|j: int| 0 <= j < es.len() && #[trigger] es[j].0 == id;
            if j < e1.len() {
                assert(es[j] == e1[j]);
            } else {
                assert(es[j] == e2[j - e1.len()]);
            }
        }
        if in_entries(e1, id) {
            let j = choose|j: int| 0 <= j < e1.len() && #[trigger] e1[j].0 == id;
            assert(es[j] == e1[j]);
        }
        if in_entries(e2, id) {
            let j = choose|j: int| 0 <= j < e2.len() && #[trigger] e2[j].0 == id;
            assert(es[j + e1.len()] == e2[j]);
        }
    }
}

/// Whether the group of `id` holds the denominator `d`.
pub open spec fn has_term(groups: Seq<(i64, Seq<int>)>, id: i64, d: int) -> bool {
    exists|q: int| 0 <= q < groups.len() && #[trigger] groups[q].0 == id && groups[q].1.contains(d)
}

proof fn lemma_leg_entries_ranks(leg: Seq<Option<i64>>, k: int)
    ensures
        forall|p: int|
            0 <= p < leg.len() && #[trigger] leg[p] is Some ==> leg_entries(leg, k).contains(
                (leg[p]->0, k + p + 1),
            ),
        forall|j: int|
            0 <= j < leg_entries(leg, k).len() ==> {
                let e = #[trigger] leg_entries(leg, k)[j];
                &&& 1 <= e.1 - k <= leg.len()
                &&& leg[e.1 - k - 1] == Some(e.0)
            },
    decreases leg.len(),
{
    if leg.len() > 0 {
        let init = leg.drop_last();
        lemma_leg_entries_ranks(init, k);
        let es = leg_entries(leg, k);
        let ei = leg_entries(init, k);
        assert(es == match leg.last() {
            Some(x) => ei.push((x, k + leg.len())),
            None => ei,
        });
        assert(forall|j: int| 0 <= j < ei.len() ==> #[trigger] es[j] == ei[j]);
        assert(forall|i: int| 0 <= i < init.len() ==> #[trigger] init[i] == leg[i]);
        assert forall|p: int| 0 <= p < leg.len() && #[trigger] leg[p] is Some implies es.contains(
            (leg[p]->0, k + p + 1),
        ) by {
            if p < init.len() {
                assert(init[p] == leg[p]);
                let j = choose|j: int| 0 <= j < ei.len() && ei[j] == (leg[p]->0, k + p + 1);
                assert(es[j] == ei[j]);
            } else {
                assert(es[es.len() - 1] == (leg[p]->0, k + p + 1));
            }
        }
        assert forall|j: int| 0 <= j < es.len() implies {
            let e = #[trigger] es[j];
            &&& 1 <= e.1 - k <= leg.len()
            &&& leg[e.1 - k - 1] == Some(e.0)
        } by {
            if j < ei.len() {
                assert(es[j] == ei[j]);
                let e = ei[j];
                assert(init[e.1 - k - 1] == leg[e.1 - k - 1]);
            }
        }
    }
}

proof fn lemma_add_entry_terms(g: Seq<(i64, Seq<int>)>, e: (i64, int))
    ensures
        has_term(add_entry(g, e), e.0, e.1),
        forall|id: i64, d: int| has_term(g, id, d) ==> #[trigger] has_term(add_entry(g, e), id, d),
        forall|id: i64, d: int|
            #[trigger] has_term(add_entry(g, e), id, d) ==> (id, d) == e || has_term(g, id, d),
{
    let r = add_entry(g, e);
    if has_group(g, e.0) {
        let p = choose|p: int| 0 <= p < g.len() && #[trigger] g[p].0 == e.0;
        assert(r == g.update(p, (e.0, g[p].1.push(e.1))));
        assert(r[p].1[r[p].1.len() - 1] == e.1);
        assert(r[p].1.contains(e.1));
        assert(r[p].0 == e.0);
        assert forall|id: i64, d: int| has_term(g, id, d) implies #[trigger] has_term(r, id, d) by {
            let q = choose|q: int| 0 <= q < g.len() && #[trigger] g[q].0 == id && g[q].1.contains(d);
            let i = choose|i: int| 0 <= i < g[q].1.len() && g[q].1[i] == d;
            if q == p {
                assert(r[q].1[i] == d);
                assert(r[q].1.contains(d));
            } else {
                assert(r[q] == g[q]);
            }
            assert(r[q].0 == id);
        }
        assert forall|id: i64, d: int| #[trigger] has_term(r, id, d) implies (id, d) == e
            || has_term(g, id, d) by {
            let q = choose|q: int| 0 <= q < r.len() && #[trigger] r[q].0 == id && r[q].1.contains(d);
            let i = choose|i: int| 0 <= i < r[q].1.len() && r[q].1[i] == d;
            if q == p {
                if i < g[p].1.len() {
                    assert(g[q].1[i] == d);
                }
            } else {
                assert(r[q] == g[q]);
            }
        }
    } else {
        assert(r == g.push((e.0, seq![e.1])));
        assert(r[g.len() as int].1[0] == e.1);
        assert(r[g.len() as int].1.contains(e.1));
        assert(r[g.len() as int].0 == e.0);
        assert forall|id: i64, d: int| has_term(g, id, d) implies #[trigger] has_term(r, id, d) by {
            let q = choose|q: int| 0 <= q < g.len() && #[trigger] g[q].0 == id && g[q].1.contains(d);
            assert(r[q] == g[q]);
        }
        assert forall|id: i64, d: int| #[trigger] has_term(r, id, d) implies (id, d) == e
            || has_term(g, id, d) by {
            let q = choose|q: int| 0 <= q < r.len() && #[trigger] r[q].0 == id && r[q].1.contains(d);
            if q < g.len() {
                assert(r[q] == g[q]);
            } else {
                let i = choose|i: int| 0 <= i < r[q].1.len() && r[q].1[i] == d;
                assert(r[q].1 == seq![e.1]);
            }
        }
    }
}

proof fn lemma_group_entries_terms(es: Seq<(i64, int)>)
    ensures
        forall|id: i64, d: int| #[trigger] has_term(group_entries(es), id, d) <==> es.contains((id, d)),
    decreases es.len(),
{
    if es.len() > 0 {
        let init = es.drop_last();
        lemma_group_entries_terms(init);
        let g = group_entries(init);
        let e = es.last();
        lemma_add_entry_terms(g, e);
        assert(group_entries(es) == add_entry(g, e));
        assert forall|id: i64, d: int| #[trigger] has_term(group_entries(es), id, d) <==> es.contains(
            (id, d),
        ) by {
            if es.contains((id, d)) {
                let j = choose|j: int| 0 <= j < es.len() && es[j] == (id, d);
                if j < init.len() {
                    assert(init[j] == es[j]);
                    assert(init.contains((id, d)));
                    assert(has_term(g, id, d));
                }
            }
            if has_term(group_entries(es), id, d) {
                if (id, d) == e {
                    assert(es[es.len() - 1] == (id, d));
                } else {
                    assert(init.contains((id, d)));
                    let j = choose|j: int| 0 <= j < init.len() && init[j] == (id, d);
                    assert(es[j] == init[j]);
                }
            }
        }
    }
}

/// Each fused term is a rank: the entry at position `p` (from 1, absent
/// entries included) of either list puts the denominator `k + p` into the
/// group of its id, and every denominator of a group is `k + p` for a
/// position `p` of one of the lists that holds that id.
pub proof fn law_rrf_terms_are_ranks(first: Seq<Option<i64>>, second: Seq<Option<i64>>, k: int)
    ensures
        forall|p: int|
            0 <= p < first.len() && #[trigger] first[p] is Some ==> has_term(
                rrf_groups(first, second, k),
                first[p]->0,
                k + p + 1,
            ),
        forall|p: int|
            0 <= p < second.len() && #[trigger] second[p] is Some ==> has_term(
                rrf_groups(first, second, k),
                second[p]->0,
                k + p + 1,
            ),
        forall|q: int, i: int|
            0 <= q < rrf_groups(first, second, k).len() && 0 <= i < rrf_groups(
                first,
                second,
                k,
            )[q].1.len() ==> {
                let id = rrf_groups(first, second, k)[q].0;
                let d = #[trigger] rrf_groups(first, second, k)[q].1[i];
                ||| 1 <= d - k <= first.len() && first[d - k - 1] == Some(id)
                ||| 1 <= d - k <= second.len() && second[d - k - 1] == Some(id)
            },
{
    let e1 = leg_entries(first, k);
    let e2 = leg_entries(second, k);
    let es = e1 + e2;
    let g = rrf_groups(first, second, k);
    lemma_leg_entries_ranks(first, k);
    lemma_leg_entries_ranks(second, k);
    lemma_group_entries_terms(es);
    assert forall|p: int| 0 <= p < first.len() && #[trigger] first[p] is Some implies has_term(
        g,
        first[p]->0,
        k + p + 1,
    ) by {
        let j = choose|j: int| 0 <= j < e1.len() && e1[j] == (first[p]->0, k + p + 1);
        assert(es[j] == e1[j]);
        assert(es.contains((first[p]->0, k + p + 1)));
    }
    assert forall|p: int| 0 <= p < second.len() && #[trigger] second[p] is Some implies has_term(
        g,
        second[p]->0,
        k + p + 1,
    ) by {
        let j = choose|j: int| 0 <= j < e2.len() && e2[j] == (second[p]->0, k + p + 1);
        assert(es[j + e1.len()] == e2[j]);
        assert(es.contains((second[p]->0, k + p + 1)));
    }
    assert forall|q: int, i: int| 0 <= q < g.len() && 0 <= i < g[q].1.len() implies {
        let id = g[q].0;
        let d = #[trigger] g[q].1[i];
        ||| 1 <= d - k <= first.len() && first[d - k - 1] == Some(id)
        ||| 1 <= d - k <= second.len() && second[d - k - 1] == Some(id)
    } by {
        let id = g[q].0;
        let d = g[q].1[i];
        assert(g[q].1.contains(d));
        assert(has_term(g, id, d));
        let j = choose|j: int| 0 <= j < es.len() && es[j] == (id, d);
        if j < e1.len() {
            assert(es[j] == e1[j]);
        } else {
            assert(es[j] == e2[j - e1.len()]);
        }
    }
}

} // verus!
