use cos_engine::search::{fuse, rank_map, snippet, Fused};
use std::collections::HashMap;

fn sorted(m: HashMap<i64, usize>) -> Vec<(i64, usize)> {
    let mut v: Vec<(i64, usize)> = m.into_iter().collect();
    v.sort();
    v
}

fn ranks(pairs: &[(i64, usize)]) -> HashMap<i64, usize> {
    pairs.iter().copied().collect()
}

#[test]
fn rank_map_ranks_positions() {
    let ids = vec![Some(10), Some(20), None, Some(30)];
    assert_eq!(sorted(rank_map(&ids, 10)), vec![(10, 0), (20, 1), (30, 3)]);
}

#[test]
fn rank_map_keeps_the_last_position_of_an_id() {
    let ids = vec![Some(5), Some(6), Some(5)];
    assert_eq!(sorted(rank_map(&ids, 3)), vec![(5, 2), (6, 1)]);
}

#[test]
fn rank_map_stops_at_the_limit() {
    let ids = vec![Some(1), Some(2), Some(3), Some(4)];
    assert_eq!(sorted(rank_map(&ids, 2)), vec![(1, 0), (2, 1)]);
    assert!(rank_map(&ids, 0).is_empty());
}

#[test]
fn rank_map_skips_unreadable_rows() {
    let ids = vec![None, Some(7)];
    let m = rank_map(&ids, 2);
    assert_eq!(m.get(&7), Some(&1));
    assert_eq!(m.len(), 1);
}

#[test]
fn fuse_is_the_union_of_both_rankings() {
    let fts = ranks(&[(1, 0), (2, 1)]);
    let vec = ranks(&[(2, 0), (3, 1)]);
    let mut out = fuse(&fts, &vec);
    out.sort_by_key(|f| f.id);
    assert_eq!(
        out,
        vec![
            Fused { id: 1, fts_rank: Some(0), vec_rank: None },
            Fused { id: 2, fts_rank: Some(1), vec_rank: Some(0) },
            Fused { id: 3, fts_rank: None, vec_rank: Some(1) },
        ]
    );
}

#[test]
fn fuse_puts_full_text_chunks_first() {
    let fts = ranks(&[(4, 0)]);
    let vec = ranks(&[(5, 0), (6, 1)]);
    let out = fuse(&fts, &vec);
    assert_eq!(out.len(), 3);
    assert_eq!(out[0], Fused { id: 4, fts_rank: Some(0), vec_rank: None });
}

#[test]
fn fuse_of_nothing_is_nothing() {
    assert!(fuse(&HashMap::new(), &HashMap::new()).is_empty());
}

#[test]
fn snippet_keeps_220_characters() {
    let long = "é".repeat(300);
    let s = snippet(&long);
    assert_eq!(s.chars().count(), 220);
    assert_eq!(s, "é".repeat(220));
    assert_eq!(snippet("short"), "short");
}
