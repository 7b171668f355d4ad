use merge_baysor::merger::merge;
use merge_baysor::outer::outer_union;
use merge_baysor::resolver::{find_cells_to_merge, find_new_cells};
use merge_baysor::table::Assignment;

fn row(t: u64, c: Option<u64>) -> Assignment {
    Assignment { transcript: t, cell: c }
}

// Threshold 0.2 expressed as the exact fraction 1/5.
const TN: u32 = 1;
const TD: u32 = 5;

#[test]
fn scenario_two_labelings() {
    // A assigns t1,t2 to c1 and t3 to c2; B assigns t1..t4 to k1.
    // shared(c1,k1)=2 of total_a=2 and total_b=4, iou = 2/4 = 0.5;
    // shared(c2,k1)=1 of total_a=1 and total_b=4, iou = 1/4 = 0.25.
    // Both clear threshold 0.2, but only (c1,k1) is k1's best match, so it
    // alone merges; every transcript B gives k1 then takes identity c1.
    let a = vec![row(1, Some(1)), row(2, Some(1)), row(3, Some(2))];
    let b = vec![row(1, Some(11)), row(2, Some(11)), row(3, Some(11)), row(4, Some(11))];

    let rows = outer_union(&a, &b);
    let pairs = find_cells_to_merge(&rows, TN, TD);
    assert_eq!(pairs, vec![(1, 11)]);
    let new_cells = find_new_cells(&rows);
    assert!(new_cells.is_empty());

    let merged = merge(&a, &b, TN, TD);
    assert_eq!(
        merged,
        vec![row(1, Some(1)), row(2, Some(1)), row(3, Some(1)), row(4, Some(1))]
    );
}

#[test]
fn self_merge_is_identity() {
    let a = vec![row(1, Some(1)), row(2, Some(1)), row(3, Some(2)), row(4, None)];
    let merged = merge(&a, &a, TN, TD);
    assert_eq!(merged, a);
    // Every cell pairs only with itself, at intersection-over-union one.
    let rows = outer_union(&a, &a);
    let mut pairs = find_cells_to_merge(&rows, TN, TD);
    pairs.sort();
    assert_eq!(pairs, vec![(1, 1), (2, 2)]);
    assert!(find_new_cells(&rows).is_empty());
}

#[test]
fn merge_at_exact_threshold() {
    // shared(c1,k5)=1, total_a=1, total_b=2: iou = 1/(1+2-1) = 0.5 exactly.
    let a = vec![row(1, Some(1))];
    let b = vec![row(1, Some(5)), row(2, Some(5))];
    // Threshold 0.5: the pair still merges, since iou >= threshold.
    let merged = merge(&a, &b, 1, 2);
    assert_eq!(merged, vec![row(1, Some(1)), row(2, Some(1))]);
}

#[test]
fn new_cell_just_above_threshold() {
    // Same tables, threshold 501/1000: the pair fails the threshold, and
    // k5's best match becomes the null left cell (also iou 0.5), so k5 is
    // new and keeps its own identity.
    let a = vec![row(1, Some(1))];
    let b = vec![row(1, Some(5)), row(2, Some(5))];
    let merged = merge(&a, &b, 501, 1000);
    assert_eq!(merged, vec![row(1, Some(5)), row(2, Some(5))]);
}

#[test]
fn disjoint_cell_is_new() {
    let a = vec![row(1, Some(1))];
    let b = vec![row(2, Some(7))];
    let rows = outer_union(&a, &b);
    assert_eq!(find_new_cells(&rows), vec![7]);
    let merged = merge(&a, &b, TN, TD);
    assert_eq!(merged, vec![row(1, Some(1)), row(2, Some(7))]);
}

#[test]
fn unmatched_cell_falls_back_to_left() {
    // iou(c1,k9) = 1/5 = 0.2 below threshold 0.5; k9 has no null-cell row,
    // so it is not new either: its transcript keeps the left identity.
    let a = vec![
        row(1, Some(1)),
        row(2, Some(1)),
        row(3, Some(1)),
        row(4, Some(1)),
        row(5, Some(1)),
    ];
    let b = vec![row(1, Some(9))];
    let merged = merge(&a, &b, 1, 2);
    assert_eq!(
        merged,
        vec![row(1, Some(1)), row(2, Some(1)), row(3, Some(1)), row(4, Some(1)), row(5, Some(1))]
    );
}

#[test]
fn tied_pairs_take_least_left_cell() {
    // Both (c1,k9) and (c2,k9) score 0.5 and are mutual best matches; the
    // merge keeps the least left identity for k9's transcripts.
    let a = vec![row(1, Some(1)), row(2, Some(2))];
    let b = vec![row(1, Some(9)), row(2, Some(9))];
    let rows = outer_union(&a, &b);
    let mut pairs = find_cells_to_merge(&rows, TN, TD);
    pairs.sort();
    assert_eq!(pairs, vec![(1, 9), (2, 9)]);
    let merged = merge(&a, &b, TN, TD);
    assert_eq!(merged, vec![row(1, Some(1)), row(2, Some(1))]);
}

#[test]
fn null_left_cell_lets_new_cell_stand() {
    let a = vec![row(1, None)];
    let b = vec![row(1, Some(5))];
    let merged = merge(&a, &b, TN, TD);
    assert_eq!(merged, vec![row(1, Some(5))]);
}

#[test]
fn merge_takes_precedence_over_new() {
    // iou(c1,k7) = 1/2 and iou(null,k7) = 1/2 tie, so k7 counts as new by
    // the tie-keeping rank; but (c1,k7) is also an accepted pair, and an
    // accepted merge outranks newness.
    let a = vec![row(1, Some(1))];
    let b = vec![row(1, Some(7)), row(2, Some(7))];
    let rows = outer_union(&a, &b);
    assert_eq!(find_new_cells(&rows), vec![7]);
    assert_eq!(find_cells_to_merge(&rows, TN, TD), vec![(1, 7)]);
    let merged = merge(&a, &b, TN, TD);
    assert_eq!(merged, vec![row(1, Some(1)), row(2, Some(1))]);
}

#[test]
fn empty_left_table_keeps_right_cells() {
    let a: Vec<Assignment> = Vec::new();
    let b = vec![row(1, Some(5))];
    let merged = merge(&a, &b, TN, TD);
    assert_eq!(merged, vec![row(1, Some(5))]);
}

#[test]
fn empty_tables_merge_to_empty() {
    let a: Vec<Assignment> = Vec::new();
    let b: Vec<Assignment> = Vec::new();
    let merged = merge(&a, &b, TN, TD);
    assert!(merged.is_empty());
}

#[test]
fn union_keeps_left_order_then_right() {
    let a = vec![row(3, Some(1)), row(1, Some(1))];
    let b = vec![row(2, Some(4)), row(1, Some(4))];
    let rows = outer_union(&a, &b);
    let keys: Vec<u64> = rows.iter().map(|r| r.transcript).collect();
    assert_eq!(keys, vec![3, 1, 2]);
    assert_eq!(rows[0].cell_a, Some(1));
    assert_eq!(rows[0].cell_b, None);
    assert_eq!(rows[1].cell_a, Some(1));
    assert_eq!(rows[1].cell_b, Some(4));
    assert_eq!(rows[2].cell_a, None);
    assert_eq!(rows[2].cell_b, Some(4));
}
