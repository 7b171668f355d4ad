use merge_baysor::reduce::{reduce_all, MergeError};
use merge_baysor::table::Assignment;
use merge_baysor::universe::{attach, run, unique_transcripts, AttrRow, OutRow};

fn row(t: u64, c: Option<u64>) -> Assignment {
    Assignment { transcript: t, cell: c }
}

fn attr(t: u64, vals: &[Option<&str>]) -> AttrRow {
    AttrRow { transcript: t, values: vals.iter().map(|v| v.map(|s| s.to_string())).collect() }
}

#[test]
fn too_few_inputs_rejected() {
    let layers: Vec<Vec<Assignment>> = vec![vec![row(1, Some(1))]];
    let r = reduce_all(&layers, 1, 5);
    assert_eq!(r, Err(MergeError::NotEnoughInputs));
    let none: Vec<Vec<Assignment>> = Vec::new();
    assert_eq!(reduce_all(&none, 1, 5), Err(MergeError::NotEnoughInputs));
    assert_eq!(
        MergeError::NotEnoughInputs.message(),
        "Not enough files to merge. Please provide at least two files."
    );
}

#[test]
fn reduce_folds_left_to_right() {
    let a = vec![row(1, Some(1)), row(2, Some(1))];
    let b = vec![row(1, Some(4)), row(2, Some(4)), row(3, Some(4))];
    let c = vec![row(3, Some(8))];
    // A and B: iou(c1,k4) = 2/3, merged into c1; t3 follows k4.
    // The result and C share t3: iou = 1/3, merged again into c1.
    let r = reduce_all(&vec![a, b, c], 1, 5).unwrap();
    assert_eq!(r, vec![row(1, Some(1)), row(2, Some(1)), row(3, Some(1))]);
}

#[test]
fn reduce_keeps_disjoint_identities() {
    let a = vec![row(1, Some(1))];
    let b = vec![row(2, Some(2))];
    let c = vec![row(3, Some(3))];
    let r = reduce_all(&vec![a, b, c], 1, 5).unwrap();
    assert_eq!(r, vec![row(1, Some(1)), row(2, Some(2)), row(3, Some(3))]);
}

#[test]
fn universe_keeps_first_seen_attributes() {
    let rows = vec![
        attr(1, &[Some("a")]),
        attr(2, &[Some("b")]),
        attr(1, &[Some("c")]),
        attr(3, &[None]),
    ];
    let u = unique_transcripts(rows);
    assert_eq!(u, vec![attr(1, &[Some("a")]), attr(2, &[Some("b")]), attr(3, &[None])]);
}

#[test]
fn attach_joins_cells_and_keeps_nulls() {
    let uni = vec![attr(1, &[Some("a")]), attr(2, &[Some("b")])];
    let fin = vec![row(1, Some(5))];
    let out = attach(uni, &fin);
    assert_eq!(
        out,
        vec![
            OutRow { transcript: 1, cell: Some(5), values: vec![Some("a".to_string())] },
            OutRow { transcript: 2, cell: None, values: vec![Some("b".to_string())] },
        ]
    );
}

#[test]
fn run_joins_merge_onto_universe() {
    // The two labelings of the pairwise scenario, plus one transcript that
    // only the attribute rows know: it must appear with a null cell.
    let a = vec![row(1, Some(1)), row(2, Some(1)), row(3, Some(2))];
    let b = vec![row(1, Some(11)), row(2, Some(11)), row(3, Some(11)), row(4, Some(11))];
    let attrs = vec![
        attr(1, &[Some("g1")]),
        attr(2, &[Some("g2")]),
        attr(3, &[Some("g3")]),
        attr(4, &[Some("g4")]),
        attr(5, &[Some("g5")]),
    ];
    let out = run(&vec![a, b], attrs, 1, 5).unwrap();
    let cells: Vec<(u64, Option<u64>)> = out.iter().map(|r| (r.transcript, r.cell)).collect();
    assert_eq!(
        cells,
        vec![(1, Some(1)), (2, Some(1)), (3, Some(1)), (4, Some(1)), (5, None)]
    );
    assert_eq!(out[4].values, vec![Some("g5".to_string())]);
}

#[test]
fn run_rejects_single_input() {
    let layers = vec![vec![row(1, Some(1))]];
    let attrs = vec![attr(1, &[])];
    let r = run(&layers, attrs, 1, 5);
    assert_eq!(r, Err(MergeError::NotEnoughInputs));
}
