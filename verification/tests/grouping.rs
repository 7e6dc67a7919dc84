use arrowtiles::grouper::{TileGrouper, CHUNK_ROW_LIMIT, CHUNK_TILE_LIMIT};

#[test]
fn runs_of_one_tile_extend_it() {
    let mut g: TileGrouper<&str> = TileGrouper::new();
    assert!(g.push_run(7, "a", 3).is_none());
    assert!(g.push_run(7, "b", 2).is_none());
    assert_eq!(g.finish(), vec![(7, vec!["a", "b"])]);
}

#[test]
fn row_limit_hands_on_a_chunk() {
    let mut g: TileGrouper<&str> = TileGrouper::new();
    assert!(g.push_run(1, "a", 300_000).is_none());
    assert!(g.push_run(2, "b", 250_000).is_none());
    let chunk = g.push_run(3, "c", 10).expect("550000 finished rows reach the limit");
    assert_eq!(chunk, vec![(1, vec!["a"]), (2, vec!["b"])]);
    assert_eq!(g.finish(), vec![(3, vec!["c"])]);
}

#[test]
fn row_limit_is_inclusive() {
    let mut g: TileGrouper<u32> = TileGrouper::new();
    assert!(g.push_run(1, 0, CHUNK_ROW_LIMIT - 1).is_none());
    assert!(g.push_run(2, 1, 1).is_none());
    assert_eq!(g.push_run(3, 2, 1), Some(vec![(1, vec![0]), (2, vec![1])]));
    let mut g: TileGrouper<u32> = TileGrouper::new();
    assert!(g.push_run(1, 0, CHUNK_ROW_LIMIT).is_none());
    assert_eq!(g.push_run(2, 1, 1), Some(vec![(1, vec![0])]));
}

#[test]
fn tile_limit_hands_on_a_chunk() {
    let mut g: TileGrouper<u64> = TileGrouper::new();
    for t in 0..CHUNK_TILE_LIMIT as u64 {
        assert!(g.push_run(t, t, 1).is_none());
    }
    let chunk = g.push_run(CHUNK_TILE_LIMIT as u64, 99, 1).expect("5000 finished tiles reach the limit");
    assert_eq!(chunk.len(), CHUNK_TILE_LIMIT);
    assert_eq!(chunk[0], (0, vec![0]));
    assert_eq!(chunk[CHUNK_TILE_LIMIT - 1], (CHUNK_TILE_LIMIT as u64 - 1, vec![CHUNK_TILE_LIMIT as u64 - 1]));
    assert_eq!(g.finish(), vec![(CHUNK_TILE_LIMIT as u64, vec![99])]);
}

#[test]
fn finish_of_an_empty_stream() {
    let mut g: TileGrouper<u8> = TileGrouper::new();
    assert!(g.finish().is_empty());
}

#[test]
fn finish_resets_the_grouper() {
    let mut g: TileGrouper<u8> = TileGrouper::new();
    assert!(g.push_run(4, 1, 1).is_none());
    assert_eq!(g.finish(), vec![(4, vec![1])]);
    assert!(g.push_run(4, 2, 1).is_none());
    assert_eq!(g.finish(), vec![(4, vec![2])]);
}

#[test]
fn single_tile_chunks_write_each_tile_when_finished() {
    let mut g: TileGrouper<u8> = TileGrouper::with_limits(CHUNK_ROW_LIMIT, 1);
    assert!(g.push_run(1, 0, 10).is_none());
    assert!(g.push_run(1, 1, 10).is_none());
    assert_eq!(g.push_run(2, 2, 1), Some(vec![(1, vec![0, 1])]));
    assert_eq!(g.push_run(3, 3, 1), Some(vec![(2, vec![2])]));
    assert_eq!(g.finish(), vec![(3, vec![3])]);
}

#[test]
fn written_tiles_group_the_stream() {
    // Whatever the limits, the tiles handed on and then finished are the
    // stream's runs of equal tile ids, in order.
    let stream: Vec<(u64, u32)> = (0..500u32).map(|i| (((i * 7) / 13 % 5) as u64, i)).collect();
    let mut expected: Vec<(u64, Vec<u32>)> = Vec::new();
    for (t, s) in &stream {
        match expected.last_mut() {
            Some((last, slices)) if last == t => slices.push(*s),
            _ => expected.push((*t, vec![*s])),
        }
    }
    for (rows, tiles) in [(1usize, 1usize), (3, 2), (1000, 7), (CHUNK_ROW_LIMIT, CHUNK_TILE_LIMIT)] {
        let mut g: TileGrouper<u32> = TileGrouper::with_limits(rows, tiles);
        let mut written = Vec::new();
        for (t, s) in &stream {
            if let Some(chunk) = g.push_run(*t, *s, 1) {
                written.extend(chunk);
            }
        }
        written.extend(g.finish());
        assert_eq!(written, expected);
    }
}

#[test]
fn tile_spans_two_batches() {
    // Batch [0, 1, 1] then batch [1, 2]: tile 1 continues into the second batch.
    let mut g: TileGrouper<&str> = TileGrouper::new();
    let mut written = Vec::new();
    for (t, s, rows) in [(0u64, "b1[0..1]", 1usize), (1, "b1[1..3]", 2), (1, "b2[0..1]", 1), (2, "b2[1..2]", 1)] {
        if let Some(chunk) = g.push_run(t, s, rows) {
            written.extend(chunk);
        }
    }
    written.extend(g.finish());
    assert_eq!(written, vec![(0, vec!["b1[0..1]"]), (1, vec!["b1[1..3]", "b2[0..1]"]), (2, vec!["b2[1..2]"])]);
}

#[test]
fn batch_leaves_finished_and_current_tiles() {
    // Batch [3, 3, 4]: tile 3 is finished and waits, tile 4 is current.
    let mut g: TileGrouper<&str> = TileGrouper::new();
    assert!(g.push_run(3, "rows 0..2", 2).is_none());
    assert!(g.push_run(4, "row 2", 1).is_none());
    assert_eq!(g.finish(), vec![(3, vec!["rows 0..2"]), (4, vec!["row 2"])]);
}

#[test]
fn can_take_guards_row_counts() {
    let mut g: TileGrouper<u8> = TileGrouper::new();
    assert!(g.can_take(1));
    assert!(g.can_take(usize::MAX - CHUNK_ROW_LIMIT));
    assert!(!g.can_take(usize::MAX - CHUNK_ROW_LIMIT + 1));
    assert!(g.push_run(1, 0, 10).is_none());
    assert!(g.can_take(usize::MAX - CHUNK_ROW_LIMIT - 10));
    assert!(!g.can_take(usize::MAX - CHUNK_ROW_LIMIT - 9));
}

#[test]
fn tiles_do_not_depend_on_batching() {
    // The same rows with the same ids, cut into batches two ways.
    let ids: Vec<u64> = vec![0, 0, 1, 1, 1, 2, 5, 5, 5, 5, 0];
    let tile_rows = |cuts: &[usize]| -> Vec<(u64, Vec<usize>)> {
        let mut g: TileGrouper<Vec<usize>> = TileGrouper::with_limits(4, 2);
        let mut written = Vec::new();
        let mut start = 0;
        for &end in cuts.iter().chain(std::iter::once(&ids.len())) {
            let batch: Vec<Option<u64>> = ids[start..end].iter().map(|t| Some(*t)).collect();
            for run in arrowtiles::runs::tile_runs(&batch) {
                let rows: Vec<usize> = (start + run.start..start + run.start + run.len).collect();
                if let Some(chunk) = g.push_run(run.tile_id, rows, run.len) {
                    written.extend(chunk);
                }
            }
            start = end;
        }
        written.extend(g.finish());
        written.into_iter().map(|(t, slices)| (t, slices.concat())).collect()
    };
    let whole = tile_rows(&[]);
    assert_eq!(whole, vec![(0, vec![0, 1]), (1, vec![2, 3, 4]), (2, vec![5]), (5, vec![6, 7, 8, 9]), (0, vec![10])]);
    assert_eq!(tile_rows(&[1, 3, 7]), whole);
    assert_eq!(tile_rows(&[2, 5, 6, 10]), whole);
}

#[test]
fn chunk_rows_count_every_slice_of_finished_tiles() {
    // Finished tiles hold 4 + 3, then 2, then 1 rows: the chunk is handed on
    // when the third finished tile brings it to the limit of 10.
    let mut g: TileGrouper<&str> = TileGrouper::with_limits(10, 100);
    assert!(g.push_run(1, "a", 4).is_none());
    assert!(g.push_run(1, "b", 3).is_none());
    assert!(g.push_run(2, "c", 2).is_none());
    assert!(g.push_run(3, "d", 1).is_none());
    assert_eq!(g.push_run(4, "e", 5), Some(vec![(1, vec!["a", "b"]), (2, vec!["c"]), (3, vec!["d"])]));
    assert_eq!(g.finish(), vec![(4, vec!["e"])]);
}
