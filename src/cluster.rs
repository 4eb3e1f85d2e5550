//! Palette clustering: strips whose colour sets are contained in a
//! cluster's founding palette join that cluster.
use vstd::prelude::*;
use std::collections::HashSet;
use crate::assembler::chunks_view;
use crate::strip::Strip;

verus! {

broadcast use vstd::std_specs::hash::group_hash_axioms;

/// One integer per RGB colour.
pub open spec fn color_code(p: [u8; 3]) -> u32 {
    (p[0] * 65536 + p[1] * 256 + p[2]) as u32
}

/// The colour codes of a pixel buffer, position by position.
pub open spec fn codes(px: Seq<[u8; 3]>) -> Seq<u32> {
    px.map_values(|p: [u8; 3]| color_code(p))
}

/// The palette of a pixel buffer: its set of distinct colours.
pub open spec fn palette(px: Seq<[u8; 3]>) -> Set<u32> {
    codes(px).to_set()
}

/// The palette of each strip.
pub open spec fn palettes(strips: Seq<Strip>) -> Seq<Set<u32>> {
    Seq::new(strips.len(), |i: int| palette(strips[i].pixels@))
}

/// A cluster: its members in order of arrival, and the founding palette.
pub type ClusterState = Seq<(Seq<usize>, Set<u32>)>;

/// Which matching clusters a strip joins.
#[derive(Clone, Copy, PartialEq, Eq, Structural)]
pub enum Membership {
    /// Every cluster whose founding palette contains the strip's palette.
    AllMatches,
    /// Only the earliest such cluster.
    FirstMatch,
}

/// Cluster `c` takes a strip with palette `pal` under `rule`.
pub open spec fn joins(clusters: ClusterState, c: int, pal: Set<u32>, rule: Membership) -> bool {
    pal.subset_of(clusters[c].1) && (rule == Membership::AllMatches || forall|d: int|
        0 <= d < c ==> !pal.subset_of(#[trigger] clusters[d].1))
}

/// Adds strip `idx` with palette `pal`: it joins the clusters whose founding
/// palette contains `pal` (all of them, or the first, as `rule` says), or
/// founds a new cluster when there is none.
pub open spec fn place(clusters: ClusterState, idx: usize, pal: Set<u32>, rule: Membership) -> ClusterState {
    if exists|c: int| 0 <= c < clusters.len() && pal.subset_of(#[trigger] clusters[c].1) {
        Seq::new(
            clusters.len(),
            |c: int|
                if joins(clusters, c, pal, rule) {
                    (clusters[c].0.push(idx), clusters[c].1)
                } else {
                    clusters[c]
                },
        )
    } else {
        clusters.push((seq![idx], pal))
    }
}

/// The clusters after placing the strips of `order`, one after another.
pub open spec fn cluster_run(pals: Seq<Set<u32>>, order: Seq<usize>, rule: Membership) -> ClusterState
    decreases order.len(),
{
    if order.len() == 0 {
        seq![]
    } else {
        place(cluster_run(pals, order.drop_last(), rule), order.last(), pals[order.last() as int], rule)
    }
}

/// `order` lists every strip once, largest palette first.
pub open spec fn is_processing_order(pals: Seq<Set<u32>>, order: Seq<usize>) -> bool {
    &&& order.len() == pals.len()
    &&& order.no_duplicates()
    &&& forall|k: int| 0 <= k < order.len() ==> #[trigger] order[k] < pals.len()
    &&& forall|p: int, q: int|
        0 <= p < q < order.len() ==> pals[#[trigger] order[p] as int].len() >= pals[#[trigger] order[q] as int].len()
}

/// The member lists of a cluster state.
pub open spec fn members_of(st: ClusterState) -> Seq<Seq<usize>> {
    Seq::new(st.len(), |c: int| st[c].0)
}

proof fn lemma_push_to_set(s: Seq<u32>, x: u32)
    ensures
        s.push(x).to_set() =~= s.to_set().insert(x),
{
    assert forall|y: u32| s.push(x).to_set().contains(y) implies s.to_set().insert(x).contains(
        y,
    ) by {
        let i = choose|i: int| 0 <= i < s.push(x).len() && s.push(x)[i] == y;
        if i < s.len() {
            assert(s[i] == y);
        }
    }
    assert forall|y: u32| s.to_set().insert(x).contains(y) implies s.push(x).to_set().contains(
        y,
    ) by {
        if y == x {
            assert(s.push(x)[s.len() as int] == x);
        } else {
            let i = choose|i: int| 0 <= i < s.len() && s[i] == y;
            assert(s.push(x)[i] == y);
        }
    }
}

fn color_of(p: [u8; 3]) -> (r: u32)
    ensures
        r == color_code(p),
{
    (p[0] as u32) * 65536 + (p[1] as u32) * 256 + (p[2] as u32)
}

/// The palette of a pixel buffer, as a set for lookups and as a list of its
/// distinct colours in order of first appearance.
fn palette_of(px: &Vec<[u8; 3]>) -> (r: (HashSet<u32>, Vec<u32>))
    ensures
        r.0@ == palette(px@),
        r.1@.to_set() == palette(px@),
        r.1@.no_duplicates(),
{
    let mut set: HashSet<u32> = HashSet::new();
    let mut list: Vec<u32> = Vec::new();
    let mut i: usize = 0;
    proof {
        assert(codes(px@.take(0)) =~= seq![]);
        assert(list@.to_set() =~= Set::empty());
    }
    while i < px.len()
        invariant
            i <= px@.len(),
            set@ == palette(px@.take(i as int)),
            list@.to_set() == set@,
            list@.no_duplicates(),
        decreases px@.len() - i,
    {
        let c = color_of(px[i]);
        proof {
            assert(codes(px@.take(i + 1)) =~= codes(px@.take(i as int)).push(c));
            lemma_push_to_set(codes(px@.take(i as int)), c);
        }
        if !set.contains(&c) {
            proof {
                lemma_push_to_set(list@, c);
            }
            set.insert(c);
            list.push(c);
        } else {
            assert(set@.insert(c) =~= set@);
        }
        i = i + 1;
    }
    assert(px@.take(px@.len() as int) =~= px@);
    (set, list)
}

/// Whether every colour of `list` is in `set`.
fn palette_within(list: &Vec<u32>, set: &HashSet<u32>) -> (r: bool)
    ensures
        r == list@.to_set().subset_of(set@),
{
    let mut i: usize = 0;
    while i < list.len()
        invariant
            i <= list@.len(),
            forall|k: int| 0 <= k < i ==> set@.contains(#[trigger] list@[k]),
        decreases list@.len() - i,
    {
        if !set.contains(&list[i]) {
            assert(list@.to_set().contains(list@[i as int]));
            return false;
        }
        i = i + 1;
    }
    true
}

/// Groups strips by palette, taking every matching cluster: a strip may be
/// recorded in several clusters.
pub fn cluster(strips: &[Strip]) -> (r: Vec<Vec<usize>>)
    ensures
        exists|order: Seq<usize>|
            is_processing_order(palettes(strips@), order) && chunks_view(r@) == members_of(
                cluster_run(palettes(strips@), order, Membership::AllMatches),
            ),
{
    cluster_with(strips, Membership::AllMatches)
}

/// Groups strips by palette. Strips are taken largest palette first (the
/// order among equal sizes is left open); each joins the matching clusters,
/// those whose founding palette contains its own, that `rule` selects, or
/// founds a new cluster when none matches.
pub fn cluster_with(strips: &[Strip], rule: Membership) -> (r: Vec<Vec<usize>>)
    ensures
        exists|order: Seq<usize>|
            is_processing_order(palettes(strips@), order) && chunks_view(r@) == members_of(
                cluster_run(palettes(strips@), order, rule),
            ),
{
    let n = strips.len();
    let ghost pals = palettes(strips@);
    let mut sets: Vec<HashSet<u32>> = Vec::new();
    let mut lists: Vec<Vec<u32>> = Vec::new();
    let mut i: usize = 0;
    while i < n
        invariant
            i <= n == strips@.len() == pals.len(),
            pals == palettes(strips@),
            sets@.len() == i,
            lists@.len() == i,
            forall|k: int| 0 <= k < i ==> (#[trigger] sets@[k])@ == pals[k],
            forall|k: int| 0 <= k < i ==> (#[trigger] lists@[k])@.to_set() == pals[k],
            forall|k: int| 0 <= k < i ==> (#[trigger] lists@[k])@.len() == pals[k].len(),
        decreases n - i,
    {
        let (s, l) = palette_of(&strips[i].pixels);
        proof {
            l@.unique_seq_to_set();
        }
        sets.push(s);
        lists.push(l);
        i = i + 1;
    }
    // Processing order: by palette size, largest first.
    let mut order: Vec<usize> = Vec::new();
    let mut i: usize = 0;
    while i < n
        invariant
            i <= n == pals.len(),
            lists@.len() == n,
            sets@.len() == n,
            forall|k: int| 0 <= k < n ==> (#[trigger] sets@[k])@ == pals[k],
            forall|k: int| 0 <= k < n ==> (#[trigger] lists@[k])@.to_set() == pals[k],
            forall|k: int| 0 <= k < n ==> (#[trigger] lists@[k])@.len() == pals[k].len(),
            order@.len() == i,
            order@.no_duplicates(),
            forall|k: int| 0 <= k < order@.len() ==> #[trigger] order@[k] < i,
            forall|p: int, q: int|
                0 <= p < q < order@.len() ==> pals[#[trigger] order@[p] as int].len()
                    >= pals[#[trigger] order@[q] as int].len(),
        decreases n - i,
    {
        let size = lists[i].len();
        let mut p: usize = 0;
        while p < order.len() && lists[order[p]].len() > size
            invariant
                p <= order@.len(),
                forall|k: int| 0 <= k < order@.len() ==> #[trigger] order@[k] < i,
                i < n == lists@.len(),
                forall|q: int| 0 <= q < p ==> pals[#[trigger] order@[q] as int].len() > size,
                forall|k: int| 0 <= k < n ==> (#[trigger] lists@[k])@.len() == pals[k].len(),
            decreases order@.len() - p,
        {
            p = p + 1;
        }
        let ghost prev = order@;
        proof {
            assert(size == pals[i as int].len());
            assert forall|q: int| p <= q < prev.len() implies pals[#[trigger] prev[q] as int].len()
                <= size by {
                if q > p {
                    assert(pals[prev[p as int] as int].len() >= pals[prev[q] as int].len());
                }
            }
        }
        order.insert(p, i);
        proof {
            let cur = order@;
            assert forall|k: int| 0 <= k < cur.len() implies #[trigger] cur[k] < i + 1 by {
                if k > p {
                    assert(cur[k] == prev[k - 1]);
                }
            }
            assert forall|a: int, b: int| 0 <= a < b < cur.len() implies pals[#[trigger] cur[a] as int].len()
                >= pals[#[trigger] cur[b] as int].len() by {
                if b < p {
                } else if b == p {
                } else if a > p {
                    assert(cur[a] == prev[a - 1] && cur[b] == prev[b - 1]);
                } else if a == p {
                    assert(cur[b] == prev[b - 1]);
                } else {
                    assert(cur[b] == prev[b - 1]);
                }
            }
            assert forall|a: int, b: int| 0 <= a < cur.len() && 0 <= b < cur.len() && a != b implies cur[a]
                != cur[b] by {
                if a != p && b != p {
                    let pa = if a < p { a } else { a - 1 };
                    let pb = if b < p { b } else { b - 1 };
                    assert(cur[a] == prev[pa] && cur[b] == prev[pb]);
                } else if a == p {
                    let pb = if b < p { b } else { b - 1 };
                    assert(cur[b] == prev[pb]);
                } else {
                    let pa = if a < p { a } else { a - 1 };
                    assert(cur[a] == prev[pa]);
                }
            }
        }
        i = i + 1;
    }
    // Placement, strip by strip.
    let mut members: Vec<Vec<usize>> = Vec::new();
    let mut reps: Vec<usize> = Vec::new();
    let mut t: usize = 0;
    while t < n
        invariant
            t <= n == pals.len() == order@.len() == sets@.len() == lists@.len(),
            is_processing_order(pals, order@),
            forall|k: int| 0 <= k < n ==> (#[trigger] sets@[k])@ == pals[k],
            forall|k: int| 0 <= k < n ==> (#[trigger] lists@[k])@.to_set() == pals[k],
            members@.len() == reps@.len() == cluster_run(pals, order@.take(t as int), rule).len(),
            forall|c: int|
                0 <= c < members@.len() ==> (#[trigger] members@[c])@ == cluster_run(
                    pals,
                    order@.take(t as int),
                    rule,
                )[c].0,
            forall|c: int|
                0 <= c < reps@.len() ==> #[trigger] reps@[c] < n && pals[reps@[c] as int]
                    == cluster_run(pals, order@.take(t as int), rule)[c].1,
        decreases n - t,
    {
        let ghost st = cluster_run(pals, order@.take(t as int), rule);
        let idx = order[t];
        let ghost pal = pals[idx as int];
        proof {
            assert(order@.take(t + 1).drop_last() =~= order@.take(t as int));
            assert(order@.take(t + 1).last() == idx);
        }
        let mut done = false;
        let mut c: usize = 0;
        while c < members.len()
            invariant
                c <= members@.len() == reps@.len() == st.len(),
                idx < n == sets@.len() == lists@.len() == pals.len(),
                pal == pals[idx as int],
                forall|k: int| 0 <= k < n ==> (#[trigger] sets@[k])@ == pals[k],
                forall|k: int| 0 <= k < n ==> (#[trigger] lists@[k])@.to_set() == pals[k],
                forall|k: int| 0 <= k < reps@.len() ==> #[trigger] reps@[k] < n && pals[reps@[k] as int] == st[k].1,
                done == exists|k: int| 0 <= k < c && pal.subset_of(#[trigger] st[k].1),
                forall|k: int|
                    0 <= k < c ==> (#[trigger] members@[k])@ == (if joins(st, k, pal, rule) {
                        st[k].0.push(idx)
                    } else {
                        st[k].0
                    }),
                forall|k: int| c <= k < members@.len() ==> (#[trigger] members@[k])@ == st[k].0,
            decreases members@.len() - c,
        {
            let hit = palette_within(&lists[idx], &sets[reps[c]]);
            proof {
                let rc = reps@[c as int];
                assert(rc < n && pals[rc as int] == st[c as int].1);
                assert(sets@[rc as int]@ == pals[rc as int]);
                assert(lists@[idx as int]@.to_set() == pal);
                assert(hit == pal.subset_of(st[c as int].1));
            }
            if hit && (rule == Membership::AllMatches || !done) {
                let mut tmp: Vec<usize> = Vec::new();
                members.set_and_swap(c, &mut tmp);
                tmp.push(idx);
                members.set_and_swap(c, &mut tmp);
                done = true;
            }
            c = c + 1;
        }
        let ghost next = place(st, idx, pal, rule);
        if !done {
            members.push(vec![idx]);
            reps.push(idx);
            proof {
                assert(next == st.push((seq![idx], pal)));
                assert(members@[st.len() as int]@ =~= seq![idx]);
            }
        } else {
            proof {
                assert(next.len() == st.len());
            }
        }
        t = t + 1;
    }
    proof {
        assert(order@.take(n as int) =~= order@);
        assert(chunks_view(members@) =~= members_of(cluster_run(pals, order@, rule)));
    }
    members
}

/// Some cluster holds both strip `i` and strip `j`.
pub open spec fn share_cluster(st: ClusterState, i: usize, j: usize) -> bool {
    exists|c: int| 0 <= c < st.len() && (#[trigger] st[c]).0.contains(i) && st[c].0.contains(j)
}

/// Of two strips, the first with palette `big` and the second with a palette
/// `small` contained in it, clustering puts both into one cluster, for every
/// size-descending processing order.
pub proof fn lemma_nested_palettes_share_cluster(
    big: Set<u32>,
    small: Set<u32>,
    order: Seq<usize>,
    rule: Membership,
)
    requires
        big.finite(),
        small.subset_of(big),
        is_processing_order(seq![big, small], order),
    ensures
        share_cluster(cluster_run(seq![big, small], order, rule), 0, 1),
{
    let pals = seq![big, small];
    let first = order[0];
    let second = order[1];
    assert(first < 2 && second < 2 && first != second);
    assert(order.drop_last() =~= seq![first]);
    assert(seq![first].drop_last() =~= Seq::<usize>::empty());
    assert(order.last() == second);
    assert(seq![first].last() == first);
    let none: ClusterState = seq![];
    assert(cluster_run(pals, Seq::<usize>::empty(), rule) == none);
    assert(cluster_run(pals, seq![first], rule) == place(none, first, pals[first as int], rule));
    assert(place(none, first, pals[first as int], rule) == none.push(
        (seq![first], pals[first as int]),
    ));
    let one = cluster_run(pals, seq![first], rule);
    assert(one =~= seq![(seq![first], pals[first as int])]);
    let two = cluster_run(pals, order, rule);
    if first == 0 {
        assert(pals[1].subset_of(one[0].1));
        assert(joins(one, 0, pals[1], rule));
        assert(two[0].0 =~= seq![0usize, 1usize]);
        assert(two[0].0[0] == 0 && two[0].0[1] == 1);
        assert(two[0].0.contains(0) && two[0].0.contains(1));
    } else {
        assert(pals[order[0] as int].len() >= pals[order[1] as int].len());
        vstd::set_lib::lemma_len_subset(small, big);
        vstd::set_lib::lemma_subset_equality(small, big);
        assert(pals[0].subset_of(one[0].1));
        assert(joins(one, 0, pals[0], rule));
        assert(two[0].0 =~= seq![1usize, 0usize]);
        assert(two[0].0[0] == 1 && two[0].0[1] == 0);
        assert(two[0].0.contains(0) && two[0].0.contains(1));
    }
}

} // verus!
