//! Pairwise affinity between strips: per-pixel colour differences, the
//! gradient filter and the confidence rule.
use vstd::prelude::*;
use crate::strip::Strip;

verus! {

/// Squared difference of two channel values.
pub open spec fn channel_gap(a: u8, b: u8) -> int {
    (a - b) * (a - b)
}

/// Difference between two pixels: the sum of the squared channel differences.
pub open spec fn pixel_gap(p: [u8; 3], q: [u8; 3]) -> int {
    channel_gap(p[0], q[0]) + channel_gap(p[1], q[1]) + channel_gap(p[2], q[2])
}

/// The differences of the first `n` positions that lie below `limit`, in
/// position order; the others are discarded as noise.
pub open spec fn retained(a: Seq<[u8; 3]>, b: Seq<[u8; 3]>, limit: int, n: int) -> Seq<int>
    decreases n,
{
    if n <= 0 {
        seq![]
    } else {
        let rest = retained(a, b, limit, n - 1);
        let d = pixel_gap(a[n - 1], b[n - 1]);
        if d < limit {
            rest.push(d)
        } else {
            rest
        }
    }
}

/// Settings of the measurement. `limit` is the discard threshold on the
/// difference of two pixels; `min_confidence_per_mille` is the least share
/// of matched positions per row of height, in thousandths.
pub struct ScoreConfig {
    pub limit: u32,
    pub min_confidence_per_mille: u32,
}

/// Outcome of comparing two strips: either too few positions matched to
/// judge, or the retained differences in position order.
pub enum Delta {
    Implausible,
    Retained(Vec<u32>),
}

/// No position was retained, or fewer than the configured share of the
/// strip's height.
pub open spec fn implausible(count: int, height: int, min_per_mille: int) -> bool {
    count == 0 || count * 1000 < min_per_mille * height
}

pub open spec fn as_ints(v: Seq<u32>) -> Seq<int> {
    v.map_values(|d: u32| d as int)
}

/// The measurement of two equally sized pixel buffers: `None` when
/// implausible, else the retained differences.
pub open spec fn delta_spec(a: Seq<[u8; 3]>, b: Seq<[u8; 3]>, height: int, cfg: ScoreConfig) -> Option<
    Seq<int>,
> {
    let kept = retained(a, b, cfg.limit as int, a.len() as int);
    if implausible(kept.len() as int, height, cfg.min_confidence_per_mille as int) {
        None
    } else {
        Some(kept)
    }
}

pub open spec fn delta_view(d: Delta) -> Option<Seq<int>> {
    match d {
        Delta::Implausible => None,
        Delta::Retained(v) => Some(as_ints(v@)),
    }
}

fn channel_difference(a: u8, b: u8) -> (r: u32)
    ensures
        r == channel_gap(a, b),
        r <= 65025,
{
    let d: u32 = if a >= b {
        (a - b) as u32
    } else {
        (b - a) as u32
    };
    assert(d * d == (a - b) * (a - b) && d * d <= 65025) by (nonlinear_arith)
        requires
            d == a - b || d == b - a,
            d <= 255,
    ;
    d * d
}

/// Difference between two pixels.
pub fn pixel_difference(p: [u8; 3], q: [u8; 3]) -> (r: u32)
    ensures
        r == pixel_gap(p, q),
{
    channel_difference(p[0], q[0]) + channel_difference(p[1], q[1]) + channel_difference(p[2], q[2])
}

/// The per-position differences of two strips that lie below `limit`.
pub fn retained_differences(a: &Vec<[u8; 3]>, b: &Vec<[u8; 3]>, limit: u32) -> (r: Vec<u32>)
    requires
        a@.len() == b@.len(),
    ensures
        as_ints(r@) == retained(a@, b@, limit as int, a@.len() as int),
        r@.len() <= a@.len(),
{
    let mut out: Vec<u32> = Vec::new();
    let mut i: usize = 0;
    while i < a.len()
        invariant
            i <= a@.len() == b@.len(),
            as_ints(out@) == retained(a@, b@, limit as int, i as int),
            out@.len() <= i,
        decreases a@.len() - i,
    {
        let d = pixel_difference(a[i], b[i]);
        let ghost before = out@;
        if d < limit {
            out.push(d);
            assert(as_ints(out@) =~= as_ints(before).push(d as int));
        }
        i = i + 1;
    }
    out
}

/// Compares two strips of the same size. The pair is implausible when no
/// position is retained or when the retained count, relative to the height,
/// stays below the configured minimum confidence.
pub fn delta(a: &Strip, b: &Strip, cfg: &ScoreConfig) -> (r: Delta)
    requires
        a.wf(),
        b.wf(),
        a.width == b.width,
        a.height == b.height,
    ensures
        delta_view(r) == delta_spec(a.pixels@, b.pixels@, a.height as int, *cfg),
{
    let kept = retained_differences(&a.pixels, &b.pixels, cfg.limit);
    let count = kept.len() as u128;
    let m = cfg.min_confidence_per_mille as u128;
    let h = a.height as u128;
    assert(m * h <= 0xffff_ffff * 0xffff_ffff_ffff_ffff) by (nonlinear_arith)
        requires
            m <= 0xffff_ffff,
            h <= 0xffff_ffff_ffff_ffff,
    ;
    if count == 0 || count * 1000 < m * h {
        Delta::Implausible
    } else {
        Delta::Retained(kept)
    }
}

/// A strip compared with itself differs by zero at every position: every
/// retained difference is zero, and with a positive limit every position is
/// retained.
pub proof fn lemma_self_difference_zero(a: Seq<[u8; 3]>, limit: int, n: nat)
    requires
        n <= a.len(),
    ensures
        forall|k: int|
            0 <= k < retained(a, a, limit, n as int).len() ==> #[trigger] retained(a, a, limit, n as int)[k]
                == 0,
        limit > 0 ==> retained(a, a, limit, n as int) == Seq::new(n, |k: int| 0int),
        limit <= 0 ==> retained(a, a, limit, n as int).len() == 0,
    decreases n,
{
    if n > 0 {
        lemma_self_difference_zero(a, limit, (n - 1) as nat);
        let p = a[n - 1];
        assert(pixel_gap(p, p) == 0);
        if limit > 0 {
            assert(retained(a, a, limit, n as int) =~= Seq::new(n, |k: int| 0int));
        }
    }
}

/// The measurement is symmetric: swapping the strips gives the same
/// retained differences and the same outcome.
pub proof fn lemma_delta_symmetric(a: Seq<[u8; 3]>, b: Seq<[u8; 3]>, height: int, cfg: ScoreConfig)
    requires
        a.len() == b.len(),
    ensures
        delta_spec(a, b, height, cfg) == delta_spec(b, a, height, cfg),
{
    lemma_retained_symmetric(a, b, cfg.limit as int, a.len() as int);
}

proof fn lemma_retained_symmetric(a: Seq<[u8; 3]>, b: Seq<[u8; 3]>, limit: int, n: int)
    ensures
        retained(a, b, limit, n) == retained(b, a, limit, n),
    decreases n,
{
    if n > 0 {
        lemma_retained_symmetric(a, b, limit, n - 1);
        assert(pixel_gap(a[n - 1], b[n - 1]) == pixel_gap(b[n - 1], a[n - 1])) by (nonlinear_arith);
    }
}

/// When every position differs by at least the limit, nothing is retained
/// and the pair is implausible, whatever the minimum confidence.
pub proof fn lemma_all_discarded(a: Seq<[u8; 3]>, b: Seq<[u8; 3]>, height: int, cfg: ScoreConfig)
    requires
        a.len() == b.len(),
        forall|k: int| 0 <= k < a.len() ==> pixel_gap(#[trigger] a[k], b[k]) >= cfg.limit,
    ensures
        retained(a, b, cfg.limit as int, a.len() as int).len() == 0,
        delta_spec(a, b, height, cfg) is None,
{
    lemma_none_retained(a, b, cfg.limit as int, a.len() as int);
}

proof fn lemma_none_retained(a: Seq<[u8; 3]>, b: Seq<[u8; 3]>, limit: int, n: int)
    requires
        n <= a.len(),
        forall|k: int| 0 <= k < a.len() ==> pixel_gap(#[trigger] a[k], b[k]) >= limit,
    ensures
        retained(a, b, limit, n).len() == 0,
    decreases n,
{
    if n > 0 {
        lemma_none_retained(a, b, limit, n - 1);
        assert(pixel_gap(a[n - 1], b[n - 1]) >= limit);
    }
}

/// Every strip is well formed and has the first strip's width and height.
pub open spec fn uniform(strips: Seq<Strip>) -> bool {
    forall|i: int|
        0 <= i < strips.len() ==> (#[trigger] strips[i]).wf() && strips[i].width == strips[0].width
            && strips[i].height == strips[0].height
}

/// Checks that all strips share one shape, so that any two can be compared.
pub fn uniform_shape(strips: &[Strip]) -> (r: bool)
    ensures
        r == uniform(strips@),
{
    let n = strips.len();
    if n == 0 {
        return true;
    }
    let w = strips[0].width;
    let h = strips[0].height;
    let mut i: usize = 0;
    while i < n
        invariant
            n == strips@.len() > 0,
            w == strips@[0].width,
            h == strips@[0].height,
            i <= n,
            forall|k: int|
                0 <= k < i ==> (#[trigger] strips@[k]).wf() && strips@[k].width == w
                    && strips@[k].height == h,
        decreases n - i,
    {
        let s = &strips[i];
        let len = s.pixels.len();
        match s.width.checked_mul(s.height) {
            Some(area) => {
                if area != len || s.width != w || s.height != h {
                    return false;
                }
            },
            None => {
                return false;
            },
        }
        i = i + 1;
    }
    true
}

/// Measures the pair `(i, j)` of a set of equally shaped strips.
pub fn measure_pair(strips: &[Strip], pair: (usize, usize), cfg: &ScoreConfig) -> (r: Delta)
    requires
        uniform(strips@),
        pair.0 < strips@.len(),
        pair.1 < strips@.len(),
    ensures
        delta_view(r) == delta_spec(
            strips@[pair.0 as int].pixels@,
            strips@[pair.1 as int].pixels@,
            strips@[pair.0 as int].height as int,
            *cfg,
        ),
{
    let a = &strips[pair.0];
    let b = &strips[pair.1];
    proof {
        assert(strips@[pair.0 as int].wf());
        assert(strips@[pair.1 as int].wf());
    }
    delta(a, b, cfg)
}

/// The pairs of strips of `s` at two different positions, each once: for
/// each position `j` in order, the pairs `(s[i], s[j])` for `i < j` in order.
pub open spec fn pairs_spec(s: Seq<usize>) -> Seq<(usize, usize)>
    decreases s.len(),
{
    if s.len() == 0 {
        seq![]
    } else {
        pairs_spec(s.drop_last()) + Seq::new((s.len() - 1) as nat, |i: int| (s[i], s.last()))
    }
}

/// The work list of a cluster: every unordered pair of its strips.
pub fn unordered_pairs(indices: &[usize]) -> (r: Vec<(usize, usize)>)
    ensures
        r@ == pairs_spec(indices@),
{
    let n = indices.len();
    let mut out: Vec<(usize, usize)> = Vec::new();
    let mut j: usize = 0;
    while j < n
        invariant
            j <= n == indices@.len(),
            out@ == pairs_spec(indices@.take(j as int)),
        decreases n - j,
    {
        let ghost start = out@;
        let mut i: usize = 0;
        while i < j
            invariant
                i <= j < n == indices@.len(),
                out@ == start + Seq::new(i as nat, |k: int| (indices@[k], indices@[j as int])),
            decreases j - i,
        {
            out.push((indices[i], indices[j]));
            i = i + 1;
            assert(out@ =~= start + Seq::new(i as nat, |k: int| (indices@[k], indices@[j as int])));
        }
        proof {
            let t = indices@.take(j + 1);
            assert(t.drop_last() =~= indices@.take(j as int));
            assert(Seq::new((t.len() - 1) as nat, |k: int| (t[k], t.last())) =~= Seq::new(
                j as nat,
                |k: int| (indices@[k], indices@[j as int]),
            ));
        }
        j = j + 1;
    }
    assert(indices@.take(n as int) =~= indices@);
    out
}

/// The work list holds every pair of positions `p < q` of the cluster, as
/// `(s[p], s[q])`, and has exactly `n (n - 1) / 2` entries: each unordered
/// pair once.
pub proof fn lemma_pairs_complete(s: Seq<usize>)
    ensures
        pairs_spec(s).len() * 2 == s.len() * (s.len() - 1),
        forall|p: int, q: int|
            0 <= p < q < s.len() ==> pairs_spec(s).contains((#[trigger] s[p], #[trigger] s[q])),
    decreases s.len(),
{
    if s.len() > 0 {
        let init = s.drop_last();
        lemma_pairs_complete(init);
        let n = s.len() as int;
        let tail = Seq::new((s.len() - 1) as nat, |i: int| (s[i], s.last()));
        assert(pairs_spec(s) == pairs_spec(init) + tail);
        assert((n - 1) * (n - 2) + 2 * (n - 1) == n * (n - 1)) by (nonlinear_arith);
        assert forall|p: int, q: int| 0 <= p < q < s.len() implies pairs_spec(s).contains(
            (#[trigger] s[p], #[trigger] s[q]),
        ) by {
            if q < n - 1 {
                assert(init[p] == s[p] && init[q] == s[q]);
                let k = choose|k: int| 0 <= k < pairs_spec(init).len() && pairs_spec(init)[k] == (init[p], init[q]);
                assert(pairs_spec(s)[k] == (s[p], s[q]));
            } else {
                let k = pairs_spec(init).len() + p;
                assert(pairs_spec(s)[k] == tail[p]);
            }
        }
    }
}

} // verus!
