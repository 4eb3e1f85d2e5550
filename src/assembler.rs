//! Chain assembly: greedy merging of strips into ordered chunks, driven by
//! affinity edges taken best first.
use vstd::prelude::*;
use std::collections::HashMap;

verus! {

broadcast use vstd::std_specs::hash::group_hash_axioms;

/// Abstract state of the assembler: the chunks, indexed by chunk id, and the
/// id of the chunk that the latest successful merge produced.
pub struct Assembly {
    pub chunks: Seq<Seq<usize>>,
    pub last: int,
}

/// `(c, k)` names an existing position: chunk `c`, offset `k`.
pub open spec fn is_slot(chunks: Seq<Seq<usize>>, c: int, k: int) -> bool {
    0 <= c < chunks.len() && 0 <= k < chunks[c].len()
}

/// Strip `x` sits at position `p`.
pub open spec fn holds_at(chunks: Seq<Seq<usize>>, x: usize, p: (int, int)) -> bool {
    is_slot(chunks, p.0, p.1) && chunks[p.0][p.1] == x
}

/// The position of strip `x` (unique in a well-formed state).
pub open spec fn locate(chunks: Seq<Seq<usize>>, x: usize) -> (int, int) {
    choose|p: (int, int)| holds_at(chunks, x, p)
}

/// Offset `k` is the head or the tail of `chunk`.
pub open spec fn is_endpoint(chunk: Seq<usize>, k: int) -> bool {
    k == 0 || k == chunk.len() - 1
}

pub open spec fn reversed(s: Seq<usize>) -> Seq<usize> {
    Seq::new(s.len(), |i: int| s[s.len() - 1 - i])
}

/// Every strip of `strips` sits at exactly one position, and nothing else
/// sits anywhere: each chunk is a simple path and chunks are disjoint.
pub open spec fn well_formed(chunks: Seq<Seq<usize>>, strips: Set<usize>) -> bool {
    &&& forall|c: int, k: int| is_slot(chunks, c, k) ==> strips.contains(#[trigger] chunks[c][k])
    &&& forall|c1: int, k1: int, c2: int, k2: int|
        #![trigger chunks[c1][k1], chunks[c2][k2]]
        is_slot(chunks, c1, k1) && is_slot(chunks, c2, k2) && chunks[c1][k1] == chunks[c2][k2]
            ==> c1 == c2 && k1 == k2
    &&& forall|x: usize| #[trigger]
        strips.contains(x) ==> exists|p: (int, int)| #[trigger] holds_at(chunks, x, p)
}

/// The starting state: one singleton chunk per strip, in the given order.
pub open spec fn initial(indices: Seq<usize>) -> Assembly {
    Assembly { chunks: Seq::new(indices.len(), |c: int| seq![indices[c]]), last: 0 }
}

/// The chunk built by joining the chunks of `a` and `b`: `a`'s chunk turned
/// so that `a` is its tail, then `b`'s chunk turned so that `b` is its head.
pub open spec fn joined(chunks: Seq<Seq<usize>>, a: (int, int), b: (int, int)) -> Seq<usize> {
    let l = if a.1 == 0 { reversed(chunks[a.0]) } else { chunks[a.0] };
    let r = if b.1 != 0 { reversed(chunks[b.0]) } else { chunks[b.0] };
    l + r
}

/// Whether edge `(i, j)` joins two chunks: the strips lie in different chunks
/// and both are endpoints of their chunks.
pub open spec fn can_join(chunks: Seq<Seq<usize>>, i: usize, j: usize) -> bool {
    let a = locate(chunks, i);
    let b = locate(chunks, j);
    a.0 != b.0 && is_endpoint(chunks[a.0], a.1) && is_endpoint(chunks[b.0], b.1)
}

/// One edge of processing: join the chunks when the endpoint rule allows,
/// leaving the joined chunk in `i`'s slot and an empty chunk in `j`'s.
pub open spec fn merge_step(st: Assembly, edge: (usize, usize)) -> Assembly {
    let a = locate(st.chunks, edge.0);
    let b = locate(st.chunks, edge.1);
    if can_join(st.chunks, edge.0, edge.1) {
        Assembly {
            chunks: st.chunks.update(a.0, joined(st.chunks, a, b)).update(b.0, seq![]),
            last: a.0,
        }
    } else {
        st
    }
}

/// The state after processing `edges` in order.
pub open spec fn assemble_spec(indices: Seq<usize>, edges: Seq<(usize, usize)>) -> Assembly
    decreases edges.len(),
{
    if edges.len() == 0 {
        initial(indices)
    } else {
        merge_step(assemble_spec(indices, edges.drop_last()), edges.last())
    }
}

/// The chain reported for a state: the chunk of the latest merge.
pub open spec fn chain_of(st: Assembly) -> Seq<usize> {
    if 0 <= st.last < st.chunks.len() {
        st.chunks[st.last]
    } else {
        seq![]
    }
}

/// Edges whose strips all belong to `indices`.
pub open spec fn edges_within(indices: Seq<usize>, edges: Seq<(usize, usize)>) -> bool {
    forall|e: int|
        0 <= e < edges.len() ==> indices.contains(#[trigger] edges[e].0) && indices.contains(
            edges[e].1,
        )
}

/// The contents of a list of index vectors.
pub open spec fn chunks_view(v: Seq<Vec<usize>>) -> Seq<Seq<usize>> {
    Seq::new(v.len(), |i: int| v[i]@)
}

proof fn lemma_locate_unique(chunks: Seq<Seq<usize>>, strips: Set<usize>, x: usize, p: (int, int))
    requires
        well_formed(chunks, strips),
        holds_at(chunks, x, p),
    ensures
        locate(chunks, x) == p,
{
    let q = locate(chunks, x);
    assert(holds_at(chunks, x, q));
    assert(chunks[q.0][q.1] == chunks[p.0][p.1]);
}

proof fn lemma_initial_well_formed(indices: Seq<usize>)
    requires
        indices.no_duplicates(),
    ensures
        well_formed(initial(indices).chunks, indices.to_set()),
        initial(indices).chunks.len() == indices.len(),
{
    let chunks = initial(indices).chunks;
    assert forall|c: int, k: int| is_slot(chunks, c, k) implies indices.to_set().contains(
        #[trigger] chunks[c][k],
    ) by {
        assert(chunks[c][k] == indices[c]);
    }
    assert forall|x: usize| #[trigger]
        indices.to_set().contains(x) implies exists|p: (int, int)| #[trigger]
        holds_at(chunks, x, p) by {
        let c = choose|c: int| 0 <= c < indices.len() && indices[c] == x;
        assert(holds_at(chunks, x, (c, 0)));
    }
}

/// Where the strip at merged offset `k` sat before the merge.
pub open spec fn source(chunks: Seq<Seq<usize>>, a: (int, int), b: (int, int), k: int) -> (int, int) {
    let la = chunks[a.0].len();
    let lb = chunks[b.0].len();
    if k < la {
        (a.0, if a.1 == 0 { la - 1 - k } else { k })
    } else {
        (b.0, if b.1 != 0 { lb - 1 - (k - la) } else { k - la })
    }
}

/// The merged offset of the strip at `p`, for `p` in `a`'s or `b`'s chunk.
pub open spec fn target(chunks: Seq<Seq<usize>>, a: (int, int), b: (int, int), p: (int, int)) -> int {
    let la = chunks[a.0].len();
    let lb = chunks[b.0].len();
    if p.0 == a.0 {
        if a.1 == 0 { la - 1 - p.1 } else { p.1 }
    } else {
        la + if b.1 != 0 { lb - 1 - p.1 } else { p.1 }
    }
}

proof fn lemma_joined(chunks: Seq<Seq<usize>>, a: (int, int), b: (int, int))
    requires
        is_slot(chunks, a.0, a.1),
        is_slot(chunks, b.0, b.1),
        a.0 != b.0,
    ensures
        joined(chunks, a, b).len() == chunks[a.0].len() + chunks[b.0].len(),
        forall|k: int|
            0 <= k < joined(chunks, a, b).len() ==> {
                let s = #[trigger] source(chunks, a, b, k);
                &&& is_slot(chunks, s.0, s.1)
                &&& (s.0 == a.0 || s.0 == b.0)
                &&& joined(chunks, a, b)[k] == chunks[s.0][s.1]
                &&& target(chunks, a, b, s) == k
            },
        forall|p: (int, int)|
            is_slot(chunks, p.0, p.1) && (p.0 == a.0 || p.0 == b.0) ==> {
                let k = #[trigger] target(chunks, a, b, p);
                &&& 0 <= k < joined(chunks, a, b).len()
                &&& joined(chunks, a, b)[k] == chunks[p.0][p.1]
            },
{
}

proof fn lemma_step_well_formed(st: Assembly, strips: Set<usize>, edge: (usize, usize))
    requires
        well_formed(st.chunks, strips),
        strips.contains(edge.0),
        strips.contains(edge.1),
    ensures
        well_formed(merge_step(st, edge).chunks, strips),
        merge_step(st, edge).chunks.len() == st.chunks.len(),
        can_join(st.chunks, edge.0, edge.1) ==> 0 <= merge_step(st, edge).last
            < st.chunks.len(),
        !can_join(st.chunks, edge.0, edge.1) ==> merge_step(st, edge) == st,
{
    let chunks = st.chunks;
    if can_join(chunks, edge.0, edge.1) {
        let a = locate(chunks, edge.0);
        let b = locate(chunks, edge.1);
        assert(holds_at(chunks, edge.0, a));
        assert(holds_at(chunks, edge.1, b));
        lemma_joined(chunks, a, b);
        let m = joined(chunks, a, b);
        let n = chunks.update(a.0, m).update(b.0, seq![]);
        assert(n == merge_step(st, edge).chunks);
        // The old position of the strip now at (c, k).
        let back = |c: int, k: int|
            if c == a.0 {
                source(chunks, a, b, k)
            } else {
                (c, k)
            };
        assert forall|c: int, k: int| is_slot(n, c, k) implies {
            let p = back(c, k);
            &&& is_slot(chunks, p.0, p.1)
            &&& n[c][k] == chunks[p.0][p.1]
            &&& (c == a.0 <==> (p.0 == a.0 || p.0 == b.0))
            &&& (c == a.0 ==> target(chunks, a, b, p) == k)
            &&& (c != a.0 ==> p == (c, k))
        } by {
            if c == a.0 {
                let s = source(chunks, a, b, k);
                assert(is_slot(chunks, s.0, s.1));
            }
        }
        assert forall|c: int, k: int| is_slot(n, c, k) implies strips.contains(#[trigger] n[c][k]) by {
            let p = back(c, k);
            assert(chunks[p.0][p.1] == n[c][k]);
        }
        assert forall|c1: int, k1: int, c2: int, k2: int|
            #![trigger n[c1][k1], n[c2][k2]]
            is_slot(n, c1, k1) && is_slot(n, c2, k2) && n[c1][k1] == n[c2][k2] implies c1 == c2
                && k1 == k2 by {
            let p1 = back(c1, k1);
            let p2 = back(c2, k2);
            assert(chunks[p1.0][p1.1] == chunks[p2.0][p2.1]);
        }
        assert forall|x: usize| #[trigger]
            strips.contains(x) implies exists|p: (int, int)| #[trigger] holds_at(n, x, p) by {
            let p = choose|p: (int, int)| #[trigger] holds_at(chunks, x, p);
            if p.0 == a.0 || p.0 == b.0 {
                let k = target(chunks, a, b, p);
                assert(holds_at(n, x, (a.0, k)));
            } else {
                assert(holds_at(n, x, p));
            }
        }
    }
}

/// Every state reached from the start through any edges within the strips
/// is well formed.
proof fn lemma_run_well_formed(indices: Seq<usize>, edges: Seq<(usize, usize)>)
    requires
        indices.no_duplicates(),
        edges_within(indices, edges),
    ensures
        well_formed(assemble_spec(indices, edges).chunks, indices.to_set()),
        assemble_spec(indices, edges).chunks.len() == indices.len(),
        assemble_spec(indices, edges).last == 0 || 0 <= assemble_spec(indices, edges).last
            < indices.len(),
    decreases edges.len(),
{
    if edges.len() == 0 {
        lemma_initial_well_formed(indices);
    } else {
        let rest = edges.drop_last();
        assert(edges_within(indices, rest)) by {
            assert forall|e: int| 0 <= e < rest.len() implies indices.contains(
                #[trigger] rest[e].0,
            ) && indices.contains(rest[e].1) by {
                assert(rest[e] == edges[e]);
            }
        }
        lemma_run_well_formed(indices, rest);
        let e = edges.last();
        assert(edges[edges.len() - 1] == e);
        assert(indices.to_set().contains(e.0));
        assert(indices.to_set().contains(e.1));
        lemma_step_well_formed(assemble_spec(indices, rest), indices.to_set(), e);
    }
}

/// After any prefix of the edge list has been processed, every chunk is a
/// simple path: each strip of the cluster sits at exactly one position of
/// exactly one chunk, so it has at most two neighbours.
pub proof fn lemma_prefix_well_formed(indices: Seq<usize>, edges: Seq<(usize, usize)>, n: nat)
    requires
        indices.no_duplicates(),
        edges_within(indices, edges),
        n <= edges.len(),
    ensures
        well_formed(assemble_spec(indices, edges.take(n as int)).chunks, indices.to_set()),
{
    let pre = edges.take(n as int);
    assert forall|e: int| 0 <= e < pre.len() implies indices.contains(#[trigger] pre[e].0)
        && indices.contains(pre[e].1) by {
        assert(pre.len() == n);
        assert(pre[e] == edges[e]);
        assert(indices.contains(edges[e].0) && indices.contains(edges[e].1));
    }
    lemma_run_well_formed(indices, pre);
}

/// Runs the assembler: returns every chunk, indexed by chunk id, and the id of
/// the chunk of the latest successful merge (0 when none happened).
pub fn assemble(indices: &[usize], edges: &[(usize, usize)]) -> (r: (Vec<Vec<usize>>, usize))
    requires
        indices@.no_duplicates(),
        edges_within(indices@, edges@),
    ensures
        chunks_view(r.0@) == assemble_spec(indices@, edges@).chunks,
        r.1 == assemble_spec(indices@, edges@).last,
        well_formed(chunks_view(r.0@), indices@.to_set()),
{
    let ghost strips = indices@.to_set();
    let mut chunks: Vec<Vec<usize>> = Vec::new();
    let mut table: HashMap<usize, (usize, usize)> = HashMap::new();
    let n = indices.len();
    let mut i: usize = 0;
    while i < n
        invariant
            i <= n == indices.len(),
            indices@.no_duplicates(),
            chunks@.len() == i,
            forall|c: int| 0 <= c < i ==> (#[trigger] chunks@[c])@ == seq![indices@[c]],
            forall|x: usize|
                #[trigger] indices@.take(i as int).contains(x) ==> table@.contains_key(x)
                    && holds_at(initial(indices@).chunks, x, (table@[x].0 as int, table@[x].1 as int)),
        decreases n - i,
    {
        let v = indices[i];
        let single = vec![v];
        assert(single@ =~= seq![v]);
        chunks.push(single);
        table.insert(v, (i, 0));
        proof {
            assert forall|x: usize| #[trigger] indices@.take(i + 1).contains(x) implies table@.contains_key(x)
                && holds_at(initial(indices@).chunks, x, (table@[x].0 as int, table@[x].1 as int)) by {
                if x == v {
                    assert(initial(indices@).chunks[i as int] == seq![v]);
                    assert(holds_at(initial(indices@).chunks, x, (i as int, 0)));
                } else {
                    let c = choose|c: int| 0 <= c < i + 1 && #[trigger] indices@.take(i + 1)[c] == x;
                    assert(indices@.take(i as int)[c] == x);
                    assert(indices@.take(i as int).contains(x));
                }
            }
        }
        i = i + 1;
    }
    proof {
        lemma_initial_well_formed(indices@);
        assert(indices@.take(n as int) =~= indices@);
        assert(edges@.take(0) =~= seq![]);
        assert(chunks_view(chunks@) =~= initial(indices@).chunks);
    }
    let mut last: usize = 0;
    let mut e: usize = 0;
    while e < edges.len()
        invariant
            e <= edges.len(),
            indices@.no_duplicates(),
            edges_within(indices@, edges@),
            strips == indices@.to_set(),
            chunks_view(chunks@) == assemble_spec(indices@, edges@.take(e as int)).chunks,
            last == assemble_spec(indices@, edges@.take(e as int)).last,
            well_formed(chunks_view(chunks@), strips),
            chunks@.len() == indices.len(),
            forall|x: usize|
                #[trigger] strips.contains(x) ==> table@.contains_key(x) && holds_at(
                    chunks_view(chunks@),
                    x,
                    (table@[x].0 as int, table@[x].1 as int),
                ),
        decreases edges.len() - e,
    {
        let ghost cv = chunks_view(chunks@);
        let ghost before = assemble_spec(indices@, edges@.take(e as int));
        let (x, y) = edges[e];
        proof {
            assert(edges@.take(e + 1).drop_last() =~= edges@.take(e as int));
            assert(edges@.take(e + 1).last() == edges@[e as int]);
            assert(indices@.contains(edges@[e as int].0) && indices@.contains(edges@[e as int].1));
            assert(strips.contains(x) && strips.contains(y));
            lemma_step_well_formed(before, strips, (x, y));
            lemma_run_well_formed(indices@, edges@.take(e + 1));
        }
        let a = *table.get(&x).unwrap();
        let b = *table.get(&y).unwrap();
        proof {
            lemma_locate_unique(cv, strips, x, (a.0 as int, a.1 as int));
            lemma_locate_unique(cv, strips, y, (b.0 as int, b.1 as int));
        }
        let la = chunks[a.0].len();
        let lb = chunks[b.0].len();
        if a.0 != b.0 && (a.1 == 0 || a.1 == la - 1) && (b.1 == 0 || b.1 == lb - 1) {
            let ghost ga = (a.0 as int, a.1 as int);
            let ghost gb = (b.0 as int, b.1 as int);
            let ghost m_spec = joined(cv, ga, gb);
            let mut m: Vec<usize> = Vec::new();
            let mut k: usize = 0;
            while k < la
                invariant
                    k <= la == cv[ga.0].len(),
                    a.0 < chunks@.len(),
                    cv == chunks_view(chunks@),
                    m@ =~= m_spec.take(k as int),
                    m_spec == joined(cv, ga, gb),
                    ga == (a.0 as int, a.1 as int),
                decreases la - k,
            {
                let v = if a.1 == 0 { chunks[a.0][la - 1 - k] } else { chunks[a.0][k] };
                m.push(v);
                k = k + 1;
            }
            let mut k: usize = 0;
            while k < lb
                invariant
                    k <= lb == cv[gb.0].len(),
                    b.0 < chunks@.len(),
                    cv == chunks_view(chunks@),
                    m_spec == joined(cv, ga, gb),
                    m_spec.len() == la + lb,
                    m@ =~= m_spec.take(la + k),
                    gb == (b.0 as int, b.1 as int),
                decreases lb - k,
            {
                let v = if b.1 != 0 { chunks[b.0][lb - 1 - k] } else { chunks[b.0][k] };
                m.push(v);
                k = k + 1;
            }
            proof {
                assert(m@ =~= m_spec);
                lemma_joined(cv, ga, gb);
            }
            let ghost after = merge_step(before, (x, y));
            let ghost old_table = table@;
            proof {
                assert(can_join(cv, x, y));
                assert(after.chunks == cv.update(ga.0, m_spec).update(gb.0, seq![]));
                assert(after.chunks[ga.0] == m_spec);
                assert forall|j: int| 0 <= j < m@.len() implies old_table[#[trigger] m@[j]].0 == a.0
                    || old_table[m@[j]].0 == b.0 by {
                    let sj = source(cv, ga, gb, j);
                    let z = m@[j];
                    assert(holds_at(cv, z, sj));
                    assert(strips.contains(z));
                    lemma_locate_unique(cv, strips, z, sj);
                    lemma_locate_unique(cv, strips, z, (old_table[z].0 as int, old_table[z].1 as int));
                }
                assert forall|j: int| 0 <= j < m@.len() implies strips.contains(#[trigger] m@[j]) by {
                    assert(is_slot(after.chunks, ga.0, j));
                    assert(after.chunks[ga.0][j] == m@[j]);
                }
                assert(m@.no_duplicates()) by {
                    assert forall|j1: int, j2: int| 0 <= j1 < m@.len() && 0 <= j2 < m@.len() && j1 != j2
                        implies m@[j1] != m@[j2] by {
                        assert(is_slot(after.chunks, ga.0, j1));
                        assert(is_slot(after.chunks, ga.0, j2));
                        assert(after.chunks[ga.0][j1] == m@[j1]);
                        assert(after.chunks[ga.0][j2] == m@[j2]);
                    }
                }
            }
            let mut k: usize = 0;
            while k < m.len()
                invariant
                    k <= m@.len(),
                    m@ == m_spec,
                    after.chunks[ga.0] == m_spec,
                    forall|j: int| 0 <= j < k ==> #[trigger] table@[m@[j]] == (a.0, j as usize),
                    forall|z: usize| #[trigger] strips.contains(z) ==> table@.contains_key(z),
                    forall|z: usize|
                        #[trigger] strips.contains(z) && old_table[z].0 != a.0 && old_table[z].0
                            != b.0 ==> table@[z] == old_table[z],
                    forall|j: int|
                        0 <= j < m@.len() ==> old_table[#[trigger] m@[j]].0 == a.0 || old_table[m@[j]].0
                            == b.0,
                    forall|j: int| 0 <= j < m@.len() ==> strips.contains(#[trigger] m@[j]),
                    m@.no_duplicates(),
                decreases m@.len() - k,
            {
                let v = m[k];
                table.insert(v, (a.0, k));
                k = k + 1;
            }
            let ghost placed = m@;
            chunks.set(a.0, m);
            chunks.set(b.0, Vec::new());
            last = a.0;
            proof {
                assert(chunks_view(chunks@) =~= after.chunks) by {
                    assert forall|c: int| 0 <= c < chunks@.len() implies chunks_view(chunks@)[c]
                        == after.chunks[c] by {
                        if c == gb.0 {
                            assert(chunks_view(chunks@)[c] =~= seq![]);
                        }
                    }
                }
                let nv = chunks_view(chunks@);
                assert forall|z: usize| #[trigger] strips.contains(z) implies table@.contains_key(z)
                    && holds_at(nv, z, (table@[z].0 as int, table@[z].1 as int)) by {
                    let p = (old_table[z].0 as int, old_table[z].1 as int);
                    assert(holds_at(cv, z, p));
                    if p.0 != ga.0 && p.0 != gb.0 {
                        assert(nv[p.0] == cv[p.0]);
                    } else {
                        let j = target(cv, ga, gb, p);
                        assert(placed[j] == z);
                        assert(table@[placed[j]] == (a.0, j as usize));
                    }
                }
            }
        }
        proof {
            assert(edges@.take(e + 1).drop_last() =~= edges@.take(e as int));
        }
        e = e + 1;
    }
    proof {
        assert(edges@.take(edges.len() as int) =~= edges@);
    }
    (chunks, last)
}

/// Chain assembly for one cluster: processes `edges` (best match first) and
/// returns the chunk of the latest successful merge. Strips that never took
/// part in a merge are not in it; `assemble` gives every chunk.
pub fn sort(indices: &[usize], edges: &[(usize, usize)]) -> (r: Vec<usize>)
    requires
        indices@.no_duplicates(),
        edges_within(indices@, edges@),
    ensures
        r@ == chain_of(assemble_spec(indices@, edges@)),
{
    let (mut chunks, last) = assemble(indices, edges);
    if last < chunks.len() {
        chunks.swap_remove(last)
    } else {
        Vec::new()
    }
}

} // verus!
