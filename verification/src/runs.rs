use vstd::prelude::*;
use crate::grouper::{rows_of_slices, tag_rows};

verus! {

/// The tile id a row of the tile-id column stands for: a missing id counts
/// as tile 0.
pub open spec fn tile_or_zero(tid: Option<u64>) -> u64 {
    match tid {
        Some(t) => t,
        None => 0,
    }
}

/// A maximal stretch of consecutive rows that carry the same tile id.
#[derive(Clone, Copy, Debug, PartialEq, Eq, Structural)]
pub struct TileRun {
    pub tile_id: u64,
    pub start: usize,
    pub len: usize,
}

/// `runs` splits the first `upto` entries of `tids` into maximal runs of
/// equal ids, in order.
pub open spec fn runs_cover(tids: Seq<u64>, runs: Seq<TileRun>, upto: int) -> bool {
    &&& 0 <= upto <= tids.len()
    &&& (runs.len() == 0 <==> upto == 0)
    &&& runs.len() > 0 ==> runs[0].start == 0 && runs.last().start + runs.last().len == upto
    &&& forall|k: int| 0 <= k < runs.len() ==> #[trigger] runs[k].len > 0 && runs[k].start + runs[k].len <= upto
    &&& forall|k: int| 0 < k < runs.len() ==> runs[k - 1].start + runs[k - 1].len == #[trigger] runs[k].start
    &&& forall|k: int| 0 < k < runs.len() ==> runs[k - 1].tile_id != #[trigger] runs[k].tile_id
    &&& forall|k: int, i: int|
        0 <= k < runs.len() && runs[k].start <= i < runs[k].start + runs[k].len ==> tids[i] == #[trigger] runs[k].tile_id
            && #[trigger] tids[i] == runs[k].tile_id
}

/// `runs` is the run-length encoding of `tids`.
pub open spec fn is_run_encoding(tids: Seq<u64>, runs: Seq<TileRun>) -> bool {
    runs_cover(tids, runs, tids.len() as int)
}

/// Splits a tile-id column into its runs of equal ids (missing ids count as
/// tile 0).
pub fn tile_runs(tids: &Vec<Option<u64>>) -> (runs: Vec<TileRun>)
    ensures
        is_run_encoding(tids@.map_values(|t: Option<u64>| tile_or_zero(t)), runs@),
        forall|i: int| 0 <= i < tids.len() ==> #[trigger] row_covered(runs@, i),
        forall|k: int, i: int| #[trigger] run_covers(runs@, k, i) ==> {
            &&& tids@[i] matches Some(t) ==> runs@[k].tile_id == t
            &&& tids@[i] is None ==> runs@[k].tile_id == 0
        },
{
    let ghost s = tids@.map_values(|t: Option<u64>| tile_or_zero(t));
    let n = tids.len();
    let mut runs: Vec<TileRun> = Vec::new();
    if n == 0 {
        proof {
            lemma_runs_carry_row_ids(tids@, runs@);
        }
        return runs;
    }
    let mut start: usize = 0;
    let mut current: u64 = match tids[0] { Some(t) => t, None => 0 };
    let mut i: usize = 1;
    while i < n
        invariant
            n == tids.len(),
            s == tids@.map_values(|t: Option<u64>| tile_or_zero(t)),
            0 <= start < i <= n,
            runs_cover(s, runs@, start as int),
            runs@.len() > 0 ==> runs@.last().tile_id != current,
            forall|j: int| start <= j < i ==> #[trigger] s[j] == current,
        decreases n - i,
    {
        let t = match tids[i] { Some(t) => t, None => 0 };
        assert(s[i as int] == t);
        if t != current {
            let ghost old_runs = runs@;
            let run = TileRun { tile_id: current, start, len: i - start };
            runs.push(run);
            assert(runs@ == old_runs.push(run));
            assert forall|k: int, j: int|
                0 <= k < runs@.len() && runs@[k].start <= j < runs@[k].start + runs@[k].len implies s[j] == #[trigger] runs@[k].tile_id
                    && #[trigger] s[j] == runs@[k].tile_id by {
                if k < old_runs.len() {
                    assert(runs@[k] == old_runs[k]);
                }
            }
            start = i;
            current = t;
        }
        i = i + 1;
    }
    let ghost old_runs = runs@;
    let run = TileRun { tile_id: current, start, len: n - start };
    runs.push(run);
    assert forall|k: int, j: int|
        0 <= k < runs@.len() && runs@[k].start <= j < runs@[k].start + runs@[k].len implies s[j] == #[trigger] runs@[k].tile_id
            && #[trigger] s[j] == runs@[k].tile_id by {
        if k < old_runs.len() {
            assert(runs@[k] == old_runs[k]);
        }
    }
    proof {
        lemma_runs_carry_row_ids(tids@, runs@);
    }
    runs
}

/// The run `k` of `runs` covers row `i`.
pub open spec fn run_covers(runs: Seq<TileRun>, k: int, i: int) -> bool {
    0 <= k < runs.len() && runs[k].start <= i < runs[k].start + runs[k].len
}

/// Some run of `runs` covers row `i`.
pub open spec fn row_covered(runs: Seq<TileRun>, i: int) -> bool {
    exists|k: int| #[trigger] run_covers(runs, k, i)
}

proof fn lemma_some_run_covers(tids: Seq<u64>, runs: Seq<TileRun>, k: int, i: int) -> (c: int)
    requires
        is_run_encoding(tids, runs),
        0 <= k < runs.len(),
        runs[k].start <= i < tids.len(),
    ensures
        run_covers(runs, c, i),
    decreases runs.len() - k,
{
    if i < runs[k].start + runs[k].len {
        k
    } else {
        if k + 1 == runs.len() {
            assert(runs.last() == runs[k]);
            assert(false);
        }
        assert(runs[k].start + runs[k].len == runs[k + 1].start);
        lemma_some_run_covers(tids, runs, k + 1, i)
    }
}

/// Law: the runs made from a tile-id column cover every row, and a run
/// carries the id of each row it covers: the row's own id where it has
/// one, and 0 where the id is missing.
pub proof fn lemma_runs_carry_row_ids(tids: Seq<Option<u64>>, runs: Seq<TileRun>)
    requires
        is_run_encoding(tids.map_values(|t: Option<u64>| tile_or_zero(t)), runs),
    ensures
        forall|i: int| 0 <= i < tids.len() ==> #[trigger] row_covered(runs, i),
        forall|k: int, i: int| #[trigger] run_covers(runs, k, i) ==> {
            &&& tids[i] matches Some(t) ==> runs[k].tile_id == t
            &&& tids[i] is None ==> runs[k].tile_id == 0
        },
{
    let s = tids.map_values(|t: Option<u64>| tile_or_zero(t));
    assert forall|i: int| 0 <= i < tids.len() implies #[trigger] row_covered(runs, i) by {
        let _ = lemma_some_run_covers(s, runs, 0, i);
    }
    assert forall|k: int, i: int| #[trigger] run_covers(runs, k, i) implies {
        &&& tids[i] matches Some(t) ==> runs[k].tile_id == t
        &&& tids[i] is None ==> runs[k].tile_id == 0
    } by {
        assert(s[i] == runs[k].tile_id);
        assert(s[i] == tile_or_zero(tids[i]));
    }
}

/// The rows that a run encoding stands for, written out again.
pub open spec fn expand_runs(runs: Seq<TileRun>) -> Seq<u64>
    decreases runs.len(),
{
    if runs.len() == 0 {
        Seq::empty()
    } else {
        expand_runs(runs.drop_last()) + Seq::new(runs.last().len as nat, |i: int| runs.last().tile_id)
    }
}

proof fn lemma_expand_prefix(tids: Seq<u64>, runs: Seq<TileRun>, m: int)
    requires
        is_run_encoding(tids, runs),
        0 <= m <= runs.len(),
    ensures
        m == 0 ==> expand_runs(runs.take(m)) == Seq::<u64>::empty(),
        m > 0 ==> expand_runs(runs.take(m)) == tids.take(runs[m - 1].start + runs[m - 1].len),
    decreases m,
{
    if m > 0 {
        lemma_expand_prefix(tids, runs, m - 1);
        let r = runs[m - 1];
        assert(runs.take(m).drop_last() =~= runs.take(m - 1));
        assert(runs.take(m).last() == r);
        let end = r.start + r.len;
        if m == 1 {
            assert(r.start == 0);
        } else {
            assert(runs[m - 2].start + runs[m - 2].len == runs[m - 1].start);
            assert(runs.take(m - 1).last() == runs[m - 2]);
        }
        assert forall|j: int| r.start <= j < end implies #[trigger] tids[j] == r.tile_id by {
            assert(tids[j] == runs[m - 1].tile_id);
        }
        assert(expand_runs(runs.take(m)) =~= tids.take(end));
    }
}

/// Law: writing the runs out again gives back the column they were made
/// from.
pub proof fn lemma_runs_expand_to_column(tids: Seq<u64>, runs: Seq<TileRun>)
    requires
        is_run_encoding(tids, runs),
    ensures
        expand_runs(runs) == tids,
{
    lemma_expand_prefix(tids, runs, runs.len() as int);
    assert(runs.take(runs.len() as int) =~= runs);
    if runs.len() > 0 {
        assert(tids.take(tids.len() as int) =~= tids);
    } else {
        assert(tids =~= Seq::<u64>::empty());
    }
}

/// The slices a batch is cut into along its runs, each with its tile id.
pub open spec fn run_slices<R>(runs: Seq<TileRun>, rows: Seq<R>) -> Seq<(u64, Seq<R>)> {
    runs.map_values(|run: TileRun| (run.tile_id, rows.subrange(run.start as int, run.start + run.len)))
}

/// The rows of a batch, each with its tile id.
pub open spec fn tagged_batch<R>(tids: Seq<u64>, rows: Seq<R>) -> Seq<(u64, R)> {
    Seq::new(rows.len(), |i: int| (tids[i], rows[i]))
}

proof fn lemma_run_slices_prefix<R>(tids: Seq<u64>, rows: Seq<R>, runs: Seq<TileRun>, m: int)
    requires
        is_run_encoding(tids, runs),
        rows.len() == tids.len(),
        0 <= m <= runs.len(),
    ensures
        m == 0 ==> rows_of_slices(run_slices(runs.take(m), rows)) == Seq::<(u64, R)>::empty(),
        m > 0 ==> rows_of_slices(run_slices(runs.take(m), rows))
            == tagged_batch(tids, rows).take(runs[m - 1].start + runs[m - 1].len),
    decreases m,
{
    if m == 0 {
        assert(run_slices(runs.take(0), rows) =~= Seq::<(u64, Seq<R>)>::empty());
    } else {
        lemma_run_slices_prefix(tids, rows, runs, m - 1);
        let r = runs[m - 1];
        let sl = run_slices(runs.take(m), rows);
        assert(sl.drop_last() =~= run_slices(runs.take(m - 1), rows));
        assert(sl.last() == (r.tile_id, rows.subrange(r.start as int, r.start + r.len)));
        let end = r.start + r.len;
        if m == 1 {
            assert(r.start == 0);
        } else {
            assert(runs[m - 2].start + runs[m - 2].len == runs[m - 1].start);
        }
        assert forall|j: int| r.start <= j < end implies #[trigger] tids[j] == r.tile_id by {
            assert(tids[j] == runs[m - 1].tile_id);
        }
        let block = tag_rows(r.tile_id, rows.subrange(r.start as int, r.start + r.len));
        assert(rows_of_slices(sl) == rows_of_slices(sl.drop_last()) + block);
        assert(rows_of_slices(sl) =~= tagged_batch(tids, rows).take(end));
    }
}

/// Law: cutting a batch along its runs loses and reorders no row: the
/// slices' rows, each with its slice's tile id, are the batch's rows with
/// their own tile ids; and no slice is empty.
pub proof fn lemma_run_slices_cover_batch<R>(tids: Seq<u64>, rows: Seq<R>, runs: Seq<TileRun>)
    requires
        is_run_encoding(tids, runs),
        rows.len() == tids.len(),
    ensures
        rows_of_slices(run_slices(runs, rows)) == tagged_batch(tids, rows),
        forall|k: int| 0 <= k < runs.len() ==> (#[trigger] run_slices(runs, rows)[k]).1.len() > 0,
{
    lemma_run_slices_prefix(tids, rows, runs, runs.len() as int);
    assert(runs.take(runs.len() as int) =~= runs);
    if runs.len() > 0 {
        assert(tagged_batch(tids, rows).take(tids.len() as int) =~= tagged_batch(tids, rows));
    } else {
        assert(tagged_batch(tids, rows) =~= Seq::<(u64, R)>::empty());
    }
    assert forall|k: int| 0 <= k < runs.len() implies (#[trigger] run_slices(runs, rows)[k]).1.len() > 0 by {
        assert(runs[k].len > 0);
    }
}

} // verus!
