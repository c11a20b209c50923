//! Hybrid search: the full-text and the vector rankings of chunks are fused
//! by reciprocal rank. Which chunks each ranking holds, at which rank, and
//! which chunks the fusion considers are decided here; the queries, the
//! cosine scores and the floating-point fusion scores stand outside the
//! library.
use vstd::prelude::*;

use std::collections::HashMap;
use vstd::std_specs::hash::spec_hash_map_iter;
use vstd::std_specs::iter::IteratorSpec;

use crate::text::{chars_of, string_of, sub_chars};

verus! {

broadcast use {vstd::string::group_string_axioms, vstd::std_specs::hash::group_hash_axioms};

/// The ranks of a ranking: each id it holds maps to the last position that
/// holds it (a row that could not be read is `None` and holds its place).
pub open spec fn ranks(ids: Seq<Option<i64>>) -> Map<i64, usize>
    decreases ids.len(),
{
    if ids.len() == 0 {
        Map::empty()
    } else {
        match ids.last() {
            Some(id) => ranks(ids.drop_last()).insert(id, (ids.len() - 1) as usize),
            None => ranks(ids.drop_last()),
        }
    }
}

/// The ranks of the first `limit` rows of a ranking: each id maps to the
/// last position it holds.
pub fn rank_map(ids: &Vec<Option<i64>>, limit: usize) -> (out: HashMap<i64, usize>)
    ensures
        out@ == ranks(ids@.take(if ids@.len() < limit { ids@.len() as int } else { limit as int })),
{
    let m = if ids.len() < limit { ids.len() } else { limit };
    let mut out: HashMap<i64, usize> = HashMap::new();
    let mut i: usize = 0;
    while i < m
        invariant
            m <= ids.len(),
            i <= m,
            out@ == ranks(ids@.take(i as int)),
        decreases m - i,
    {
        proof {
            let post = ids@.take(i + 1);
            assert(post.drop_last() =~= ids@.take(i as int));
            assert(post.last() == ids@[i as int]);
        }
        match ids[i] {
            Some(id) => {
                out.insert(id, i);
            },
            None => {},
        }
        i = i + 1;
    }
    out
}

/// The rank a rank map gives `id`, if any.
pub open spec fn rank_of(ranks: Map<i64, usize>, id: i64) -> Option<usize> {
    if ranks.contains_key(id) {
        Some(ranks[id])
    } else {
        None
    }
}

/// A chunk considered by the fusion, with its rank in each ranking.
#[derive(Clone, Copy, Debug, PartialEq, Eq, Structural)]
pub struct Fused {
    pub id: i64,
    pub fts_rank: Option<usize>,
    pub vec_rank: Option<usize>,
}

/// No chunk appears twice in `out`.
pub open spec fn fused_unique(out: Seq<Fused>) -> bool {
    forall|a: int, b: int| 0 <= a < b < out.len() ==> (#[trigger] out[a]).id != (#[trigger] out[b]).id
}

/// `out` holds the chunk `id`.
pub open spec fn has_chunk(out: Seq<Fused>, id: i64) -> bool {
    exists|k: int| 0 <= k < out.len() && (#[trigger] out[k]).id == id
}

/// `fused` holds each chunk ranked by either ranking once, with the rank
/// each gives it, and nothing else.
pub open spec fn is_fusion(fused: Seq<Fused>, fts: Map<i64, usize>, vec: Map<i64, usize>) -> bool {
    &&& fused_unique(fused)
    &&& forall|i: int| 0 <= i < fused.len() ==> {
        &&& (#[trigger] fused[i]).fts_rank == rank_of(fts, fused[i].id)
        &&& fused[i].vec_rank == rank_of(vec, fused[i].id)
        &&& (fused[i].fts_rank is Some || fused[i].vec_rank is Some)
    }
    &&& forall|id: i64| #[trigger] fts.contains_key(id) ==> has_chunk(fused, id)
    &&& forall|id: i64| #[trigger] vec.contains_key(id) ==> has_chunk(fused, id)
}

/// The chunks the fusion scores: every chunk of either ranking, once, with
/// its rank in each (the full-text ranking's chunks first).
pub fn fuse(fts: &HashMap<i64, usize>, vec: &HashMap<i64, usize>) -> (out: Vec<Fused>)
    ensures
        is_fusion(out@, fts@, vec@),
{
    let mut out: Vec<Fused> = Vec::new();
    let ghost fs = spec_hash_map_iter(fts).remaining();
    for (id, r) in it: fts.iter()
        invariant
            it.seq() == fs,
            fs == spec_hash_map_iter(fts).remaining(),
            fs.no_duplicates(),
            out@.len() == it.index(),
            forall|k: int| 0 <= k < out@.len() ==> (#[trigger] out@[k]).id == *fs[k].0 && out@[k].fts_rank
                == rank_of(fts@, out@[k].id) && out@[k].vec_rank == rank_of(vec@, out@[k].id)
                && out@[k].fts_rank is Some,
    {
        let v = match vec.get(id) {
            Some(x) => Some(*x),
            None => None,
        };
        out.push(Fused { id: *id, fts_rank: Some(*r), vec_rank: v });
    }
    let n = out.len();
    let ghost vs = spec_hash_map_iter(vec).remaining();
    for (id, r) in it: vec.iter()
        invariant_except_break
            forall|k: int| #![trigger out@[k]] n <= k < out@.len() ==> exists|q: int| 0 <= q < it.index() && *vs[q].0 == out@[k].id,
        invariant
            it.seq() == vs,
            vs == spec_hash_map_iter(vec).remaining(),
            vs.no_duplicates(),
            fs == spec_hash_map_iter(fts).remaining(),
            n == fs.len(),
            n <= out@.len(),
            forall|k: int| 0 <= k < n ==> (#[trigger] out@[k]).id == *fs[k].0,
            forall|k: int| 0 <= k < out@.len() ==> (#[trigger] out@[k]).fts_rank == rank_of(fts@, out@[k].id)
                && out@[k].vec_rank == rank_of(vec@, out@[k].id) && (out@[k].fts_rank is Some
                || out@[k].vec_rank is Some),
            fused_unique(out@),
            forall|q: int| 0 <= q < it.index() ==> has_chunk(out@, #[trigger] *vs[q].0),
    {
        let ghost j = it.index();
        let ghost old_out = out@;
        if !fts.contains_key(id) {
            out.push(Fused { id: *id, fts_rank: None, vec_rank: Some(*r) });
            proof {
                assert(vec@.contains_key(*vs[j].0) && vec@[*vs[j].0] == *vs[j].1);
                assert forall|a: int, b: int| 0 <= a < b < out@.len() implies (#[trigger] out@[a]).id != (#[trigger] out@[b]).id by {
                    if b == old_out.len() {
                        assert(out@[a] == old_out[a]);
                        if a < n {
                            assert(fts@.contains_key(*fs[a].0));
                        } else {
                            let q = choose|q: int| 0 <= q < j && *vs[q].0 == old_out[a].id;
                            assert(vec@.contains_key(*vs[q].0) && vec@[*vs[q].0] == *vs[q].1);
                            assert(vs[q] != vs[j]);
                        }
                    } else {
                        assert(out@[a] == old_out[a]);
                        assert(out@[b] == old_out[b]);
                    }
                }
                assert forall|q: int| 0 <= q < j + 1 implies has_chunk(out@, #[trigger] *vs[q].0) by {
                    if q == j {
                        assert(out@[old_out.len() as int].id == *vs[q].0);
                    } else {
                        assert(has_chunk(old_out, *vs[q].0));
                        let k = choose|k: int| 0 <= k < old_out.len() && (#[trigger] old_out[k]).id == *vs[q].0;
                        assert(out@[k] == old_out[k]);
                    }
                }
                assert forall|k: int| #![trigger out@[k]] n <= k < out@.len() implies exists|q: int| 0 <= q < j + 1 && *vs[q].0 == out@[k].id by {
                    if k < old_out.len() {
                        assert(out@[k] == old_out[k]);
                        let q = choose|q: int| 0 <= q < j && *vs[q].0 == old_out[k].id;
                        assert(0 <= q < j + 1 && *vs[q].0 == out@[k].id);
                    } else {
                        assert(*vs[j].0 == out@[k].id);
                    }
                }
            }
        } else {
            proof {
                let q = choose|q: int| 0 <= q < fs.len() && fs[q] == (id, &fts@[*id]);
                assert(out@[q].id == *id);
                assert(has_chunk(out@, *vs[j].0));
            }
        }
    }
    proof {
        assert forall|x: i64| #[trigger] fts@.contains_key(x) implies has_chunk(out@, x) by {
            assert(fs.contains((&x, &fts@[x])));
            let q = choose|q: int| 0 <= q < fs.len() && fs[q] == (&x, &fts@[x]);
            assert(out@[q].id == x);
        }
        assert forall|x: i64| #[trigger] vec@.contains_key(x) implies has_chunk(out@, x) by {
            assert(vs.contains((&x, &vec@[x])));
            let q = choose|q: int| 0 <= q < vs.len() && vs[q] == (&x, &vec@[x]);
            assert(has_chunk(out@, *vs[q].0));
        }
    }
    out
}

/// The number of characters a hit's snippet keeps.
pub open spec fn snippet_len() -> nat {
    220
}

/// `snippet`: the first 220 characters of a chunk.
pub fn snippet(content: &str) -> (out: String)
    ensures
        out@ == content@.take(if content@.len() < snippet_len() { content@.len() as int } else { snippet_len() as int }),
{
    let c = chars_of(content);
    let n = if c.len() < 220 { c.len() } else { 220 };
    let s = sub_chars(&c, 0, n);
    string_of(&s)
}

} // verus!
