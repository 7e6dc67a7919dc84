use arrowtiles::runs::{tile_runs, TileRun};

#[test]
fn runs_of_a_column() {
    let runs = tile_runs(&vec![Some(5), Some(5), None, Some(0), Some(7)]);
    assert_eq!(
        runs,
        vec![
            TileRun { tile_id: 5, start: 0, len: 2 },
            TileRun { tile_id: 0, start: 2, len: 2 },
            TileRun { tile_id: 7, start: 4, len: 1 },
        ]
    );
}

#[test]
fn runs_of_empty_and_single_columns() {
    assert_eq!(tile_runs(&vec![]), vec![]);
    assert_eq!(tile_runs(&vec![Some(9)]), vec![TileRun { tile_id: 9, start: 0, len: 1 }]);
    assert_eq!(tile_runs(&vec![None, None, None]), vec![TileRun { tile_id: 0, start: 0, len: 3 }]);
}

#[test]
fn returning_ids_start_new_runs() {
    let runs = tile_runs(&vec![Some(1), Some(2), Some(1)]);
    assert_eq!(runs.len(), 3);
    assert_eq!(runs[2], TileRun { tile_id: 1, start: 2, len: 1 });
}

#[test]
fn runs_expand_back_to_the_column() {
    let column: Vec<Option<u64>> = (0..200u64).map(|i| if i % 17 == 3 { None } else { Some(i / 9) }).collect();
    let mut expanded = Vec::new();
    for run in tile_runs(&column) {
        for _ in 0..run.len {
            expanded.push(run.tile_id);
        }
    }
    let plain: Vec<u64> = column.iter().map(|t| t.unwrap_or(0)).collect();
    assert_eq!(expanded, plain);
}
