//! Pair extraction and aggregation: enumerates, for every pixel location,
//! the valid neighbors per offset, filters out-of-bounds and self-equal
//! pairs, and folds every discovered pair into one deduplicated set.

use vstd::prelude::*;

use crate::adjacency::AdjacencySet;
use crate::adjacency::closure_spec;
use crate::adjacency::lemma_push_to_set;
use crate::color::Color;
use crate::color::PixelPair;
use crate::grid::Dimensions;
use crate::grid::Offset;
use crate::grid::apply_offset;
use crate::grid::from_index;
use crate::grid::index_of;
use crate::grid::location_of;
use crate::grid::neighbor_of;
use crate::grid::to_index;

verus! {

/// The pair discovered at pixel index `i` in direction `off`, if any: `None`
/// when the neighbor leaves the grid or carries the same color.
pub open spec fn extracted_pair(buf: Seq<Color>, dims: Dimensions, i: int, off: Offset) -> Option<
    PixelPair,
> {
    match neighbor_of(location_of(i, dims), off, dims) {
        Some(nloc) => {
            let ni = index_of(nloc, dims);
            if buf[ni] == buf[i] {
                None
            } else {
                Some(PixelPair { origin: buf[i], neighbor: buf[ni] })
            }
        },
        None => None,
    }
}

/// The pairs discovered at pixel index `i` through the first `m` offsets,
/// in offset order.
pub open spec fn extracted_seq(
    buf: Seq<Color>,
    dims: Dimensions,
    offs: Seq<Offset>,
    i: int,
    m: int,
) -> Seq<PixelPair>
    decreases m,
{
    if m <= 0 {
        Seq::empty()
    } else {
        let rest = extracted_seq(buf, dims, offs, i, m - 1);
        match extracted_pair(buf, dims, i, offs[m - 1]) {
            Some(p) => rest.push(p),
            None => rest,
        }
    }
}

/// The set of pairs discovered at pixel index `i` through the first `m`
/// offsets.
pub open spec fn pixel_pairs_upto(
    buf: Seq<Color>,
    dims: Dimensions,
    offs: Seq<Offset>,
    i: int,
    m: int,
) -> Set<PixelPair> {
    Set::new(
        |p: PixelPair|
            exists|k: int|
                0 <= k < m && #[trigger] extracted_pair(buf, dims, i, offs[k]) == Some(p),
    )
}

/// The set of pairs discovered at the pixel indices below `n`, through every
/// offset.
pub open spec fn adjacent_pairs_upto(
    buf: Seq<Color>,
    dims: Dimensions,
    offs: Seq<Offset>,
    n: int,
) -> Set<PixelPair> {
    Set::new(
        |p: PixelPair|
            exists|i: int, k: int|
                0 <= i < n && 0 <= k < offs.len() && #[trigger] extracted_pair(buf, dims, i, offs[k])
                    == Some(p),
    )
}

/// The one-directional adjacency set of a whole buffer: every pair of
/// differing colors discovered from any pixel through any offset.
pub open spec fn adjacent_pairs(buf: Seq<Color>, dims: Dimensions, offs: Seq<Offset>) -> Set<
    PixelPair,
> {
    adjacent_pairs_upto(buf, dims, offs, buf.len() as int)
}

/// Each pixel yields at most one pair per offset.
proof fn lemma_extracted_seq_len(
    buf: Seq<Color>,
    dims: Dimensions,
    offs: Seq<Offset>,
    i: int,
    m: int,
)
    requires
        0 <= m,
    ensures
        extracted_seq(buf, dims, offs, i, m).len() <= m,
    decreases m,
{
    if m > 0 {
        lemma_extracted_seq_len(buf, dims, offs, i, m - 1);
    }
}

/// The discovered sequence holds exactly the discovered set.
proof fn lemma_extracted_seq_to_set(
    buf: Seq<Color>,
    dims: Dimensions,
    offs: Seq<Offset>,
    i: int,
    m: int,
)
    requires
        0 <= m <= offs.len(),
    ensures
        extracted_seq(buf, dims, offs, i, m).to_set() == pixel_pairs_upto(buf, dims, offs, i, m),
    decreases m,
{
    if m <= 0 {
        assert(extracted_seq(buf, dims, offs, i, m).to_set() =~= pixel_pairs_upto(
            buf,
            dims,
            offs,
            i,
            m,
        ));
    } else {
        lemma_extracted_seq_to_set(buf, dims, offs, i, m - 1);
        let rest = extracted_seq(buf, dims, offs, i, m - 1);
        let small = pixel_pairs_upto(buf, dims, offs, i, m - 1);
        let big = pixel_pairs_upto(buf, dims, offs, i, m);
        match extracted_pair(buf, dims, i, offs[m - 1]) {
            Some(p) => {
                lemma_push_to_set(rest, p);
                assert forall|q: PixelPair| big.contains(q) implies small.insert(p).contains(
                    q,
                ) by {
                    let k = choose|k: int|
                        0 <= k < m && #[trigger] extracted_pair(buf, dims, i, offs[k]) == Some(q);
                    if k < m - 1 {
                        assert(small.contains(q));
                    }
                }
                assert forall|q: PixelPair| small.insert(p).contains(q) implies big.contains(
                    q,
                ) by {
                    if q == p {
                        assert(extracted_pair(buf, dims, i, offs[m - 1]) == Some(q));
                    } else {
                        let k = choose|k: int|
                            0 <= k < m - 1 && #[trigger] extracted_pair(buf, dims, i, offs[k])
                                == Some(q);
                        assert(extracted_pair(buf, dims, i, offs[k]) == Some(q));
                    }
                }
                assert(big =~= small.insert(p));
            },
            None => {
                assert forall|q: PixelPair| big.contains(q) implies small.contains(q) by {
                    let k = choose|k: int|
                        0 <= k < m && #[trigger] extracted_pair(buf, dims, i, offs[k]) == Some(q);
                    assert(k < m - 1);
                }
                assert(big =~= small);
            },
        }
    }
}

/// Discovering pairs at one more pixel adds exactly that pixel's pairs.
proof fn lemma_adjacent_pairs_step(buf: Seq<Color>, dims: Dimensions, offs: Seq<Offset>, n: int)
    requires
        0 <= n,
    ensures
        adjacent_pairs_upto(buf, dims, offs, n + 1) == adjacent_pairs_upto(
            buf,
            dims,
            offs,
            n,
        ).union(pixel_pairs_upto(buf, dims, offs, n, offs.len() as int)),
{
    let a = adjacent_pairs_upto(buf, dims, offs, n);
    let b = pixel_pairs_upto(buf, dims, offs, n, offs.len() as int);
    let c = adjacent_pairs_upto(buf, dims, offs, n + 1);
    assert forall|p: PixelPair| c.contains(p) implies a.union(b).contains(p) by {
        let (i, k): (int, int) = choose|i: int, k: int|
            0 <= i < n + 1 && 0 <= k < offs.len() && #[trigger] extracted_pair(
                buf,
                dims,
                i,
                offs[k],
            ) == Some(p);
        if i < n {
            assert(a.contains(p));
        } else {
            assert(extracted_pair(buf, dims, n, offs[k]) == Some(p));
            assert(b.contains(p));
        }
    }
    assert forall|p: PixelPair| a.union(b).contains(p) implies c.contains(p) by {
        if a.contains(p) {
            let (i, k): (int, int) = choose|i: int, k: int|
                0 <= i < n && 0 <= k < offs.len() && #[trigger] extracted_pair(
                    buf,
                    dims,
                    i,
                    offs[k],
                ) == Some(p);
            assert(extracted_pair(buf, dims, i, offs[k]) == Some(p));
        } else {
            let k = choose|k: int|
                0 <= k < offs.len() && #[trigger] extracted_pair(buf, dims, n, offs[k]) == Some(p);
            assert(extracted_pair(buf, dims, n, offs[k]) == Some(p));
        }
    }
    assert(c =~= a.union(b));
}

/// Extracts the pairs discovered at the pixel at index `i`: for each offset
/// in order, the neighbor's color, when the neighbor lies in the grid and
/// its color differs from the pixel's own.
pub fn pairs_at(buffer: &Vec<Color>, dims: Dimensions, offsets: &Vec<Offset>, i: usize) -> (r: Vec<
    PixelPair,
>)
    requires
        buffer@.len() == dims.rows * dims.columns,
        i < buffer@.len(),
    ensures
        r@ == extracted_seq(buffer@, dims, offsets@, i as int, offsets@.len() as int),
        r@.len() <= offsets@.len(),
{
    proof {
        lemma_extracted_seq_len(buffer@, dims, offsets@, i as int, offsets@.len() as int);
        assert(0 < dims.columns) by {
            if dims.columns == 0 {
                assert(dims.rows * dims.columns == 0) by (nonlinear_arith)
                    requires
                        dims.columns == 0,
                ;
            }
        }
    }
    let n = buffer.len();
    let loc = from_index(i, dims);
    let pixel = buffer[i];
    let mut r: Vec<PixelPair> = Vec::new();
    let mut k: usize = 0;
    while k < offsets.len()
        invariant
            k <= offsets@.len(),
            buffer@.len() == dims.rows * dims.columns,
            buffer@.len() <= usize::MAX,
            i < buffer@.len(),
            loc == location_of(i as int, dims),
            loc.in_bounds(dims),
            pixel == buffer@[i as int],
            r@ == extracted_seq(buffer@, dims, offsets@, i as int, k as int),
        decreases offsets@.len() - k,
    {
        let off = offsets[k];
        match apply_offset(loc, off, dims) {
            Some(nloc) => {
                let ni = to_index(nloc, dims);
                let ncolor = buffer[ni];
                if ncolor == pixel {
                    proof {
                        assert(extracted_pair(buffer@, dims, i as int, off)
                            == None::<PixelPair>);
                    }
                } else {
                    r.push(PixelPair { origin: pixel, neighbor: ncolor });
                    proof {
                        assert(extracted_pair(buffer@, dims, i as int, off) == Some(
                            PixelPair { origin: pixel, neighbor: ncolor },
                        ));
                    }
                }
            },
            None => {
                proof {
                    assert(extracted_pair(buffer@, dims, i as int, off) == None::<PixelPair>);
                }
            },
        }
        proof {
            assert(r@ == extracted_seq(buffer@, dims, offsets@, i as int, k as int + 1));
        }
        k += 1;
    }
    r
}

/// Visits every pixel index exactly once and accumulates every discovered
/// pair into one deduplicated set. The result is a pure function of the
/// buffer, the dimensions and the offsets, so any two runs on the same
/// inputs agree.
pub fn aggregate(buffer: &Vec<Color>, dims: Dimensions, offsets: &Vec<Offset>) -> (r: AdjacencySet)
    requires
        buffer@.len() == dims.rows * dims.columns,
    ensures
        r.wf(),
        r@ == adjacent_pairs(buffer@, dims, offsets@),
{
    let mut r = AdjacencySet::new();
    proof {
        assert(r@ =~= adjacent_pairs_upto(buffer@, dims, offsets@, 0));
    }
    let mut i: usize = 0;
    while i < buffer.len()
        invariant
            i <= buffer@.len(),
            buffer@.len() == dims.rows * dims.columns,
            r.wf(),
            r@ == adjacent_pairs_upto(buffer@, dims, offsets@, i as int),
        decreases buffer@.len() - i,
    {
        let ps = pairs_at(buffer, dims, offsets, i);
        r.insert_all(&ps);
        proof {
            lemma_extracted_seq_to_set(buffer@, dims, offsets@, i as int, offsets@.len() as int);
            lemma_adjacent_pairs_step(buffer@, dims, offsets@, i as int);
        }
        i += 1;
    }
    r
}

/// The whole adjacency discovery: aggregates every pair discovered at any
/// pixel through any offset, then closes the set under color swapping, so
/// adjacency is reported as an undirected relation. The result is a pure
/// function of the inputs: two runs on the same buffer, dimensions and
/// offsets yield the identical set.
pub fn color_adjacencies(buffer: &Vec<Color>, dims: Dimensions, offsets: &Vec<Offset>) -> (r:
    AdjacencySet)
    requires
        buffer@.len() == dims.rows * dims.columns,
    ensures
        r.wf(),
        r@ == closure_spec(adjacent_pairs(buffer@, dims, offsets@)),
{
    let one_directional = aggregate(buffer, dims, offsets);
    one_directional.close()
}

/// No self-pairs: no pair of the aggregated set, nor of its symmetry
/// closure, has equal origin and neighbor colors.
pub proof fn lemma_no_self_pairs(buf: Seq<Color>, dims: Dimensions, offs: Seq<Offset>)
    ensures
        forall|p: PixelPair|
            #[trigger] adjacent_pairs(buf, dims, offs).contains(p) ==> p.origin != p.neighbor,
        forall|p: PixelPair|
            #[trigger] closure_spec(adjacent_pairs(buf, dims, offs)).contains(p) ==> p.origin
                != p.neighbor,
{
    let s = adjacent_pairs(buf, dims, offs);
    assert forall|p: PixelPair| #[trigger] s.contains(p) implies p.origin != p.neighbor by {
        let (i, k): (int, int) = choose|i: int, k: int|
            0 <= i < buf.len() && 0 <= k < offs.len() && #[trigger] extracted_pair(
                buf,
                dims,
                i,
                offs[k],
            ) == Some(p);
        assert(extracted_pair(buf, dims, i, offs[k]) == Some(p));
    }
}

} // verus!
