use distsort::heap::{heap_pop, heap_push, HeadEntry};
use distsort::kmerge::k_way_merge;
use distsort::record::StudentRanking;
use distsort::sort::{merge, merge_sort};

fn rec(id: &str, year: i32, uni: i32, batch: i32) -> StudentRanking {
    StudentRanking {
        student_id: id.to_string(),
        batch_year: year,
        university_ranking: uni,
        batch_ranking: batch,
    }
}

fn ids(v: &[StudentRanking]) -> Vec<String> {
    v.iter().map(|r| r.student_id.clone()).collect()
}

fn keys_ascending(v: &[StudentRanking]) -> bool {
    v.windows(2).all(|w| w[0].le(&w[1]))
}

#[test]
fn merge_sort_orders_by_three_keys() {
    let mut v = vec![
        rec("a", 2021, 1, 1),
        rec("b", 2020, 5, 1),
        rec("c", 2020, 3, 9),
        rec("d", 2020, 3, 2),
        rec("e", 2019, 9, 9),
    ];
    merge_sort(&mut v);
    assert_eq!(ids(&v), vec!["e", "d", "c", "b", "a"]);
    assert!(keys_ascending(&v));
}

#[test]
fn merge_sort_is_stable_on_equal_keys() {
    let mut v = vec![
        rec("x1", 2020, 1, 1),
        rec("y", 2019, 1, 1),
        rec("x2", 2020, 1, 1),
        rec("x3", 2020, 1, 1),
        rec("z", 2018, 7, 7),
    ];
    merge_sort(&mut v);
    assert_eq!(ids(&v), vec!["z", "y", "x1", "x2", "x3"]);
}

#[test]
fn merge_sort_keeps_every_record() {
    let mut v = vec![rec("a", 3, 0, 0), rec("b", 1, 0, 0), rec("a", 3, 0, 0), rec("c", 2, 0, 0)];
    let mut before = v.clone();
    merge_sort(&mut v);
    assert_eq!(v.len(), 4);
    let mut after = v.clone();
    before.sort_by(|p, q| p.student_id.cmp(&q.student_id));
    after.sort_by(|p, q| p.student_id.cmp(&q.student_id));
    assert_eq!(before, after);
    assert_eq!(ids(&v), vec!["b", "c", "a", "a"]);
}

#[test]
fn merge_sort_empty_and_single() {
    let mut e: Vec<StudentRanking> = Vec::new();
    merge_sort(&mut e);
    assert!(e.is_empty());
    let mut one = vec![rec("only", 1, 2, 3)];
    merge_sort(&mut one);
    assert_eq!(ids(&one), vec!["only"]);
}

#[test]
fn merge_sort_negative_keys() {
    let mut v = vec![rec("p", 0, 0, -1), rec("q", i32::MIN, 0, 0), rec("r", 0, -5, i32::MAX)];
    merge_sort(&mut v);
    assert_eq!(ids(&v), vec!["q", "r", "p"]);
}

#[test]
fn merge_two_halves_prefers_left_on_tie() {
    let mut v = vec![rec("l1", 1, 1, 1), rec("l2", 2, 0, 0), rec("r1", 1, 1, 1), rec("r2", 1, 2, 0)];
    merge(&mut v, 2);
    assert_eq!(ids(&v), vec!["l1", "r1", "r2", "l2"]);
}

#[test]
fn k_way_merge_of_no_chunks_is_empty() {
    assert!(k_way_merge(Vec::new()).is_empty());
}

#[test]
fn k_way_merge_of_one_chunk_is_identity() {
    let chunk = vec![rec("a", 1, 1, 1), rec("b", 1, 1, 1), rec("c", 2, 0, 0)];
    let out = k_way_merge(vec![chunk.clone()]);
    assert_eq!(out, chunk);
}

#[test]
fn k_way_merge_overlapping_chunks() {
    let c1 = vec![rec("a", 1, 0, 0), rec("d", 4, 0, 0), rec("g", 7, 0, 0)];
    let c2 = vec![rec("b", 2, 0, 0), rec("e", 5, 0, 0)];
    let c3: Vec<StudentRanking> = Vec::new();
    let c4 = vec![rec("c", 3, 0, 0), rec("f", 6, 0, 0), rec("h", 8, 0, 0), rec("i", 9, 0, 0)];
    let out = k_way_merge(vec![c1, c2, c3, c4]);
    assert_eq!(out.len(), 9);
    assert!(keys_ascending(&out));
    assert_eq!(ids(&out), vec!["a", "b", "c", "d", "e", "f", "g", "h", "i"]);
}

#[test]
fn end_to_end_ordering() {
    let mut c1 = vec![rec("b", 2020, 5, 1), rec("a", 2020, 3, 2)];
    let mut c2 = vec![rec("c", 2019, 9, 9)];
    let mut c3 = vec![rec("d", 2021, 1, 1)];
    merge_sort(&mut c1);
    merge_sort(&mut c2);
    merge_sort(&mut c3);
    let out = k_way_merge(vec![c1, c2, c3]);
    // 2019 < 2020 < 2021; within 2020 the second key decides: 3 < 5.
    assert_eq!(ids(&out), vec!["c", "a", "b", "d"]);
}

#[test]
fn record_order_and_copy() {
    let a = rec("a", 2020, 3, 2);
    let b = rec("b", 2020, 3, 2);
    assert!(a.le(&b) && b.le(&a));
    assert!(rec("x", 2019, 9, 9).le(&a));
    assert!(!rec("x", 2020, 4, 0).le(&a));
    assert_eq!(a.duplicate(), a);
}

#[test]
fn heap_pops_least_entry_first() {
    let mut h: Vec<HeadEntry> = Vec::new();
    let entries = [(5, 0usize), (1, 3), (3, 1), (1, 2), (4, 4), (2, 5)];
    for (year, chunk) in entries {
        heap_push(&mut h, HeadEntry { record: rec("r", year, 0, 0), chunk });
    }
    let mut order: Vec<(i32, usize)> = Vec::new();
    while !h.is_empty() {
        let e = heap_pop(&mut h);
        order.push((e.record.batch_year, e.chunk));
    }
    assert_eq!(order, vec![(1, 2), (1, 3), (2, 5), (3, 1), (4, 4), (5, 0)]);
}
