//! Placement of reassembled chains side by side in one output image, and of
//! the strips cut out of one source image.
use vstd::prelude::*;
use crate::assembler::chunks_view;

verus! {

/// The number of strips over all chains.
pub open spec fn total_len(chains: Seq<Seq<usize>>) -> int
    decreases chains.len(),
{
    if chains.len() == 0 {
        0
    } else {
        total_len(chains.drop_last()) + chains.last().len()
    }
}

/// The first column of chain `c`: every earlier chain takes its strips'
/// columns and one empty column after them.
pub open spec fn chain_start(chains: Seq<Seq<usize>>, c: int) -> int {
    c + total_len(chains.take(c))
}

proof fn lemma_total_len_nonneg(chains: Seq<Seq<usize>>)
    ensures
        total_len(chains) >= 0,
    decreases chains.len(),
{
    if chains.len() > 0 {
        lemma_total_len_nonneg(chains.drop_last());
    }
}

/// Lays chains out left to right with one empty column after each: returns
/// the image width and, for each chain, the column of each of its strips;
/// `None` when the width does not fit in `usize`.
pub fn columns(chains: &Vec<Vec<usize>>) -> (r: Option<(usize, Vec<Vec<usize>>)>)
    ensures
        r is Some <==> chains@.len() + total_len(chunks_view(chains@)) <= usize::MAX,
        r matches Some((width, cols)) ==> {
            &&& width == chains@.len() + total_len(chunks_view(chains@))
            &&& cols@.len() == chains@.len()
            &&& forall|c: int|
                0 <= c < cols@.len() ==> (#[trigger] cols@[c])@.len() == chains@[c]@.len()
            &&& forall|c: int, k: int|
                0 <= c < cols@.len() && 0 <= k < chains@[c]@.len() ==> (#[trigger] cols@[c]@[k])
                    == chain_start(chunks_view(chains@), c) + k
        },
{
    let ghost all = chunks_view(chains@);
    let mut cols: Vec<Vec<usize>> = Vec::new();
    let mut next: usize = 0;
    let mut c: usize = 0;
    while c < chains.len()
        invariant
            c <= chains@.len() == all.len(),
            all == chunks_view(chains@),
            next == chain_start(all, c as int),
            cols@.len() == c,
            forall|d: int| 0 <= d < c ==> (#[trigger] cols@[d])@.len() == chains@[d]@.len(),
            forall|d: int, k: int|
                0 <= d < c && 0 <= k < chains@[d]@.len() ==> (#[trigger] cols@[d]@[k])
                    == chain_start(all, d) + k,
        decreases chains@.len() - c,
    {
        let chain = &chains[c];
        let mut placed: Vec<usize> = Vec::new();
        let mut k: usize = 0;
        proof {
            assert(all.take(c + 1).drop_last() =~= all.take(c as int));
            assert(all.take(c + 1).last() == all[c as int]);
            lemma_total_len_nonneg(all.take(c as int));
            lemma_growth(all, c as int);
        }
        while k < chain.len()
            invariant
                k <= chain@.len(),
                c < chains@.len() == all.len(),
                all == chunks_view(chains@),
                chain@ == all[c as int],
                next == chain_start(all, c as int),
                placed@.len() == k,
                forall|j: int| 0 <= j < k ==> #[trigger] placed@[j] == next + j,
            decreases chain@.len() - k,
        {
            match next.checked_add(k) {
                Some(col) => placed.push(col),
                None => {
                    proof {
                        lemma_prefix_bound(all, c as int);
                    }
                    return None;
                },
            }
            k = k + 1;
        }
        let ghost before = cols@;
        cols.push(placed);
        proof {
            assert forall|d: int, k2: int|
                0 <= d < c + 1 && 0 <= k2 < chains@[d]@.len() implies (#[trigger] cols@[d]@[k2])
                == chain_start(all, d) + k2 by {
                if d < c {
                    assert(cols@[d] == before[d]);
                }
            }
        }
        match next.checked_add(chain.len()) {
            Some(v) => match v.checked_add(1) {
                Some(w) => next = w,
                None => {
                    proof {
                        lemma_prefix_bound(all, c + 1);
                    }
                    return None;
                },
            },
            None => {
                proof {
                    lemma_prefix_bound(all, c + 1);
                }
                return None;
            },
        }
        c = c + 1;
    }
    proof {
        assert(all.take(all.len() as int) =~= all);
    }
    Some((next, cols))
}

proof fn lemma_growth(all: Seq<Seq<usize>>, c: int)
    requires
        0 <= c < all.len(),
    ensures
        chain_start(all, c + 1) == chain_start(all, c) + all[c].len() + 1,
{
    assert(all.take(c + 1).drop_last() =~= all.take(c));
}

/// The width of all chains is at least the start of any later chain, minus
/// one for the gap after it.
proof fn lemma_prefix_bound(all: Seq<Seq<usize>>, c: int)
    requires
        0 <= c <= all.len(),
    ensures
        all.len() + total_len(all) >= chain_start(all, c) + if c < all.len() { all[c].len() + 1 } else { 0 },
    decreases all.len() - c,
{
    if c < all.len() {
        lemma_growth(all, c);
        lemma_prefix_bound(all, c + 1);
    } else {
        assert(all.take(c) =~= all);
    }
}

/// Pieces cut from each source image.
pub const PIECES_PER_IMAGE: u32 = 5;

/// A rectangle of a source image and the size the piece is scaled to.
pub struct Cut {
    pub x: u32,
    pub y: u32,
    pub width: u32,
    pub height: u32,
    pub out_width: u32,
    pub out_height: u32,
}

/// Piece `k` of a source image: a band 10 columns wide, the first at column
/// 200 and each next one 210 columns further, taken from row 103 for 10330
/// rows and scaled to a tenth of its height.
pub fn piece(k: u32) -> (r: Cut)
    requires
        k < PIECES_PER_IMAGE,
    ensures
        r.x == 200 + 210 * k,
        r.y == 103,
        r.width == 10,
        r.height == 10330,
        r.out_width == r.width,
        r.out_height * 10 == r.height,
{
    Cut { x: 200 + 210 * k, y: 103, width: 10, height: 10330, out_width: 10, out_height: 1033 }
}

} // verus!
