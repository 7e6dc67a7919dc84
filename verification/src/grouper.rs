use vstd::prelude::*;

verus! {

/// A chunk of finished tiles is handed on for encoding once its tiles hold
/// this many rows.
pub const CHUNK_ROW_LIMIT: usize = 500_000;

/// A chunk of finished tiles is handed on for encoding once it holds this
/// many tiles.
pub const CHUNK_TILE_LIMIT: usize = 5000;

/// A tile as a tile id and the slices of rows that make it up.
pub open spec fn group_view<B>(group: (u64, Vec<B>)) -> (u64, Seq<B>) {
    (group.0, group.1@)
}

/// All slices of a sequence of tiles, in order.
pub open spec fn flatten_groups<B>(groups: Seq<(u64, Seq<B>)>) -> Seq<B>
    decreases groups.len(),
{
    if groups.len() == 0 {
        Seq::empty()
    } else {
        flatten_groups(groups.drop_last()) + groups.last().1
    }
}

/// The tiles of a chunk handed on, if any.
pub open spec fn handed_on<B>(flushed: Option<Vec<(u64, Vec<B>)>>) -> Seq<(u64, Seq<B>)> {
    match flushed {
        Some(f) => f@.map_values(|g: (u64, Vec<B>)| group_view(g)),
        None => Seq::empty(),
    }
}

/// The tiles after one more slice with tile id `tile_id`: it joins the last
/// tile when that has the same id, and starts a new tile otherwise.
pub open spec fn extend_groups<B>(groups: Seq<(u64, Seq<B>)>, tile_id: u64, slice: B) -> Seq<(u64, Seq<B>)> {
    if groups.len() > 0 && groups.last().0 == tile_id {
        groups.drop_last().push((tile_id, groups.last().1.push(slice)))
    } else {
        groups.push((tile_id, seq![slice]))
    }
}

/// A stream of slices with their tile ids, grouped into tiles: consecutive
/// slices with the same id form one tile.
pub open spec fn group_consecutive<B>(slices: Seq<(u64, B)>) -> Seq<(u64, Seq<B>)>
    decreases slices.len(),
{
    if slices.len() == 0 {
        Seq::empty()
    } else {
        extend_groups(group_consecutive(slices.drop_last()), slices.last().0, slices.last().1)
    }
}

/// The chunks handed on, one after the other.
pub open spec fn concat_chunks<B>(chunks: Seq<Seq<(u64, Seq<B>)>>) -> Seq<(u64, Seq<B>)>
    decreases chunks.len(),
{
    if chunks.len() == 0 {
        Seq::empty()
    } else {
        concat_chunks(chunks.drop_last()) + chunks.last()
    }
}

/// Law: over a whole stream, the tiles handed on by `push_run`, followed by
/// the tiles `finish` returns, are the stream's slices grouped by
/// consecutive tile id. `pending[i]` is what the grouper holds before slice
/// `i` (`pending[0]` is empty, as from `new`), `handed[i]` what `push_run`
/// hands on for slice `i`; the steps are those that `push_run` ensures.
pub proof fn lemma_tiles_group_the_stream<B>(
    slices: Seq<(u64, B)>,
    pending: Seq<Seq<(u64, Seq<B>)>>,
    handed: Seq<Seq<(u64, Seq<B>)>>,
)
    requires
        pending.len() == slices.len() + 1,
        handed.len() == slices.len(),
        pending[0] == Seq::<(u64, Seq<B>)>::empty(),
        forall|i: int| 0 <= i < slices.len() ==>
            #[trigger] handed[i] + pending[i + 1] == extend_groups(pending[i], slices[i].0, slices[i].1)
            && pending[i + 1].len() > 0,
    ensures
        concat_chunks(handed) + pending[slices.len() as int] == group_consecutive(slices),
    decreases slices.len(),
{
    let n = slices.len() as int;
    if n > 0 {
        let s = slices.drop_last();
        let p = pending.drop_last();
        let h = handed.drop_last();
        assert forall|i: int| 0 <= i < s.len() implies
            #[trigger] h[i] + p[i + 1] == extend_groups(p[i], s[i].0, s[i].1) && p[i + 1].len() > 0 by {
            assert(h[i] == handed[i]);
            assert(p[i + 1] == pending[i + 1]);
            assert(p[i] == pending[i]);
            assert(s[i] == slices[i]);
        }
        lemma_tiles_group_the_stream(s, p, h);
        assert(h =~= handed.drop_last());
        let before = concat_chunks(h);
        let last_pending = pending[n - 1];
        assert(before + last_pending == group_consecutive(s));
        assert(handed[n - 1] + pending[n] == extend_groups(last_pending, slices[n - 1].0, slices[n - 1].1));
        assert(s =~= slices.drop_last());
        let t = slices.last().0;
        let b = slices.last().1;
        let g = group_consecutive(s);
        if n > 1 {
            assert(pending[n - 1].len() > 0);
        } else {
            assert(last_pending =~= Seq::<(u64, Seq<B>)>::empty());
            assert(before =~= Seq::<(u64, Seq<B>)>::empty());
        }
        if last_pending.len() > 0 {
            assert(g.last() == last_pending.last());
            assert(g.drop_last() =~= before + last_pending.drop_last());
        } else {
            assert(g =~= before);
        }
        assert(concat_chunks(handed) =~= before + handed[n - 1]);
        assert(extend_groups(g, t, b) =~= before + extend_groups(last_pending, t, b));
        assert(concat_chunks(handed) + pending[n] =~= before + (handed[n - 1] + pending[n]));
    }
}

/// The rows of a sequence of slices, each row with its slice's tile id.
pub open spec fn rows_of_slices<R>(slices: Seq<(u64, Seq<R>)>) -> Seq<(u64, R)>
    decreases slices.len(),
{
    if slices.len() == 0 {
        Seq::empty()
    } else {
        rows_of_slices(slices.drop_last()) + tag_rows(slices.last().0, slices.last().1)
    }
}

/// Rows tagged with one tile id.
pub open spec fn tag_rows<R>(tile_id: u64, rows: Seq<R>) -> Seq<(u64, R)> {
    rows.map_values(|r: R| (tile_id, r))
}

/// The rows of a tile's slices, in order.
pub open spec fn join_slices<R>(slices: Seq<Seq<R>>) -> Seq<R>
    decreases slices.len(),
{
    if slices.len() == 0 {
        Seq::empty()
    } else {
        join_slices(slices.drop_last()) + slices.last()
    }
}

/// A tile made of slices, seen as the rows it holds.
pub open spec fn tile_rows<R>(tile: (u64, Seq<Seq<R>>)) -> (u64, Seq<R>) {
    (tile.0, join_slices(tile.1))
}

/// Tiles of rows after a nonempty block of rows with tile id `tile_id`.
pub open spec fn extend_rows<R>(groups: Seq<(u64, Seq<R>)>, tile_id: u64, rows: Seq<R>) -> Seq<(u64, Seq<R>)> {
    if groups.len() > 0 && groups.last().0 == tile_id {
        groups.drop_last().push((tile_id, groups.last().1 + rows))
    } else {
        groups.push((tile_id, rows))
    }
}

proof fn lemma_group_tagged_block<R>(before: Seq<(u64, R)>, tile_id: u64, rows: Seq<R>)
    requires
        rows.len() > 0,
    ensures
        group_consecutive(before + tag_rows(tile_id, rows)) == extend_rows(group_consecutive(before), tile_id, rows),
    decreases rows.len(),
{
    let all = before + tag_rows(tile_id, rows);
    let r = rows.last();
    let shorter = rows.drop_last();
    assert(all.drop_last() =~= before + tag_rows(tile_id, shorter));
    assert(all.last() == (tile_id, r));
    let g = group_consecutive(before);
    if shorter.len() == 0 {
        assert(before + tag_rows(tile_id, shorter) =~= before);
        assert(shorter.push(r) =~= rows);
        if g.len() > 0 && g.last().0 == tile_id {
            assert(g.last().1.push(r) =~= g.last().1 + rows);
        }
        assert(seq![r] =~= rows);
    } else {
        lemma_group_tagged_block(before, tile_id, shorter);
        let mid = extend_rows(g, tile_id, shorter);
        assert(mid.last().0 == tile_id);
        if g.len() > 0 && g.last().0 == tile_id {
            assert(mid.drop_last() =~= g.drop_last());
            assert((g.last().1 + shorter).push(r) =~= g.last().1 + rows);
        } else {
            assert(mid.drop_last() =~= g);
            assert(shorter.push(r) =~= rows);
        }
    }
}

proof fn lemma_join_push<R>(slices: Seq<Seq<R>>, slice: Seq<R>)
    ensures
        join_slices(slices.push(slice)) == join_slices(slices) + slice,
{
    assert(slices.push(slice).drop_last() =~= slices);
}

/// Law: grouping slices into tiles does not depend on how the rows are cut
/// into slices: the tiles' rows are the rows of the whole stream grouped by
/// consecutive tile id.
pub proof fn lemma_grouping_ignores_slicing<R>(slices: Seq<(u64, Seq<R>)>)
    requires
        forall|i: int| 0 <= i < slices.len() ==> (#[trigger] slices[i]).1.len() > 0,
    ensures
        group_consecutive(slices).map_values(|g: (u64, Seq<Seq<R>>)| tile_rows(g))
            == group_consecutive(rows_of_slices(slices)),
    decreases slices.len(),
{
    if slices.len() > 0 {
        let shorter = slices.drop_last();
        let (t, s) = slices.last();
        assert forall|i: int| 0 <= i < shorter.len() implies (#[trigger] shorter[i]).1.len() > 0 by {
            assert(shorter[i] == slices[i]);
        }
        lemma_grouping_ignores_slicing(shorter);
        assert(slices[slices.len() - 1].1.len() > 0);
        lemma_group_tagged_block(rows_of_slices(shorter), t, s);
        let g = group_consecutive(shorter);
        let mapped = g.map_values(|x: (u64, Seq<Seq<R>>)| tile_rows(x));
        let grown = extend_groups(g, t, s);
        assert(group_consecutive(slices) == grown);
        if g.len() > 0 && g.last().0 == t {
            lemma_join_push(g.last().1, s);
            assert(mapped.last() == tile_rows(g.last()));
            assert(grown.map_values(|x: (u64, Seq<Seq<R>>)| tile_rows(x))
                =~= mapped.drop_last().push((t, mapped.last().1 + s)));
        } else {
            assert(join_slices(seq![s]) =~= s) by {
                assert(seq![s].drop_last() =~= Seq::<Seq<R>>::empty());
                assert(seq![s].last() == s);
                assert(join_slices(Seq::<Seq<R>>::empty()) =~= Seq::<R>::empty());
                assert(join_slices(seq![s]) == join_slices(seq![s].drop_last()) + seq![s].last());
            }
            if g.len() > 0 {
                assert(mapped.last().0 == g.last().0);
            }
            assert(grown.map_values(|x: (u64, Seq<Seq<R>>)| tile_rows(x)) =~= mapped.push((t, s)));
        }
    }
}

/// Law: two streams that carry the same rows with the same tile ids, cut
/// into slices (batches and runs) differently, give the same tiles.
pub proof fn lemma_tiles_independent_of_batches<R>(a: Seq<(u64, Seq<R>)>, b: Seq<(u64, Seq<R>)>)
    requires
        forall|i: int| 0 <= i < a.len() ==> (#[trigger] a[i]).1.len() > 0,
        forall|i: int| 0 <= i < b.len() ==> (#[trigger] b[i]).1.len() > 0,
        rows_of_slices(a) == rows_of_slices(b),
    ensures
        group_consecutive(a).map_values(|g: (u64, Seq<Seq<R>>)| tile_rows(g))
            == group_consecutive(b).map_values(|g: (u64, Seq<Seq<R>>)| tile_rows(g)),
{
    lemma_grouping_ignores_slicing(a);
    lemma_grouping_ignores_slicing(b);
}

/// Law: the rows of two consecutive parts of a stream are the rows of the
/// first part, then those of the second.
pub proof fn lemma_rows_of_slices_concat<R>(a: Seq<(u64, Seq<R>)>, b: Seq<(u64, Seq<R>)>)
    ensures
        rows_of_slices(a + b) == rows_of_slices(a) + rows_of_slices(b),
    decreases b.len(),
{
    if b.len() == 0 {
        assert(a + b =~= a);
    } else {
        lemma_rows_of_slices_concat(a, b.drop_last());
        assert((a + b).drop_last() =~= a + b.drop_last());
        assert((a + b).last() == b.last());
    }
}

/// Neighbouring tiles of the sequence have different tile ids.
pub open spec fn neighbours_differ<B>(groups: Seq<(u64, Seq<B>)>) -> bool {
    forall|k: int| 0 < k < groups.len() ==> groups[k - 1].0 != #[trigger] groups[k].0
}

/// The sum of a sequence of row counts.
pub open spec fn sum_counts(counts: Seq<nat>) -> nat
    decreases counts.len(),
{
    if counts.len() == 0 {
        0
    } else {
        sum_counts(counts.drop_last()) + counts.last()
    }
}

proof fn lemma_sum_counts_concat(a: Seq<nat>, b: Seq<nat>)
    ensures
        sum_counts(a + b) == sum_counts(a) + sum_counts(b),
    decreases b.len(),
{
    if b.len() == 0 {
        assert(a + b =~= a);
    } else {
        lemma_sum_counts_concat(a, b.drop_last());
        assert((a + b).drop_last() =~= a + b.drop_last());
        assert((a + b).last() == b.last());
    }
}

/// The rows of tiles whose slices are given by their row counts.
pub open spec fn total_rows(tiles: Seq<(u64, Seq<nat>)>) -> nat {
    sum_counts(flatten_groups(tiles))
}

/// The row counts have the shape of the tiles: the same tile ids, and one
/// count for each slice.
pub open spec fn counts_match<B>(tiles: Seq<(u64, Seq<B>)>, counts: Seq<(u64, Seq<nat>)>) -> bool {
    &&& counts.len() == tiles.len()
    &&& forall|k: int| 0 <= k < tiles.len() ==>
        (#[trigger] counts[k]).0 == tiles[k].0 && counts[k].1.len() == tiles[k].1.len()
}

/// Groups a stream of row slices, ordered by tile id, into tiles, and hands
/// finished tiles on in chunks. `B` is the type of a slice of rows.
pub struct TileGrouper<B> {
    current_tile: Option<u64>,
    current_slices: Vec<B>,
    current_rows: usize,
    current_counts: Ghost<Seq<nat>>,
    chunk: Vec<(u64, Vec<B>)>,
    chunk_counts: Ghost<Seq<(u64, Seq<nat>)>>,
    chunk_rows: usize,
    row_limit: usize,
    tile_limit: usize,
}

impl<B> TileGrouper<B> {
    /// The tile that the next slice extends when it has the same id.
    pub closed spec fn current_tile(&self) -> Option<u64> {
        self.current_tile
    }

    /// The slices of the current tile so far.
    pub closed spec fn current_slices(&self) -> Seq<B> {
        self.current_slices@
    }

    /// The rows of the current tile so far.
    pub closed spec fn current_rows(&self) -> nat {
        self.current_rows as nat
    }

    /// The row count of each slice of the current tile, as it was taken.
    pub closed spec fn current_row_counts(&self) -> Seq<nat> {
        self.current_counts@
    }

    /// The finished tiles not yet handed on, with the row count of each of
    /// their slices.
    pub closed spec fn chunk_row_counts(&self) -> Seq<(u64, Seq<nat>)> {
        self.chunk_counts@
    }

    /// The finished tiles not yet handed on.
    pub closed spec fn chunk(&self) -> Seq<(u64, Seq<B>)> {
        self.chunk@.map_values(|g: (u64, Vec<B>)| group_view(g))
    }

    /// The rows of the finished tiles not yet handed on.
    pub closed spec fn chunk_rows(&self) -> nat {
        self.chunk_rows as nat
    }

    /// Finished tiles are handed on once they hold this many rows.
    pub closed spec fn row_limit(&self) -> nat {
        self.row_limit as nat
    }

    /// Finished tiles are handed on once there are this many.
    pub closed spec fn tile_limit(&self) -> nat {
        self.tile_limit as nat
    }

    /// Everything not yet handed on: the finished tiles, then the current one.
    pub open spec fn pending(&self) -> Seq<(u64, Seq<B>)> {
        match self.current_tile() {
            Some(t) => self.chunk().push((t, self.current_slices())),
            None => self.chunk(),
        }
    }

    /// Everything not yet handed on, with the row count of each slice.
    pub open spec fn pending_row_counts(&self) -> Seq<(u64, Seq<nat>)> {
        match self.current_tile() {
            Some(t) => self.chunk_row_counts().push((t, self.current_row_counts())),
            None => self.chunk_row_counts(),
        }
    }

    /// The grouper's invariant: the row count of the finished tiles not yet
    /// handed on is the sum of the rows of their slices, and the row count
    /// of the current tile that of its slices; the finished tiles stay below
    /// both limits; a grouper without a current tile holds nothing; and
    /// neighbouring tiles have different ids.
    pub open spec fn wf(&self) -> bool {
        &&& counts_match(self.chunk(), self.chunk_row_counts())
        &&& self.current_row_counts().len() == self.current_slices().len()
        &&& self.chunk_rows() == total_rows(self.chunk_row_counts())
        &&& self.current_rows() == sum_counts(self.current_row_counts())
        &&& self.chunk_rows() < self.row_limit()
        &&& self.chunk().len() < self.tile_limit()
        &&& self.current_tile() is None ==> self.current_slices().len() == 0 && self.current_rows() == 0
            && self.chunk().len() == 0
        &&& neighbours_differ(self.pending())
    }

    /// Whether a run of `rows` more rows can be taken without the row
    /// counts overflowing `usize`.
    pub fn can_take(&self, rows: usize) -> (ok: bool)
        ensures
            ok <==> self.current_rows() + rows + self.row_limit() <= usize::MAX,
    {
        self.current_rows <= usize::MAX - self.row_limit && rows <= usize::MAX - self.row_limit - self.current_rows
    }

    /// A grouper that has seen no rows and hands on chunks of
    /// `CHUNK_ROW_LIMIT` rows or `CHUNK_TILE_LIMIT` tiles.
    pub fn new() -> (grouper: Self)
        ensures
            grouper.wf(),
            grouper.pending() == Seq::<(u64, Seq<B>)>::empty(),
            grouper.pending_row_counts() == Seq::<(u64, Seq<nat>)>::empty(),
            grouper.current_tile() is None,
            grouper.current_slices() == Seq::<B>::empty(),
            grouper.current_rows() == 0,
            grouper.chunk_rows() == 0,
            grouper.row_limit() == CHUNK_ROW_LIMIT,
            grouper.tile_limit() == CHUNK_TILE_LIMIT,
    {
        Self::with_limits(CHUNK_ROW_LIMIT, CHUNK_TILE_LIMIT)
    }

    /// A grouper that has seen no rows and hands on finished tiles once they
    /// hold `row_limit` rows or number `tile_limit`.
    pub fn with_limits(row_limit: usize, tile_limit: usize) -> (grouper: Self)
        requires
            row_limit >= 1,
            tile_limit >= 1,
        ensures
            grouper.wf(),
            grouper.pending() == Seq::<(u64, Seq<B>)>::empty(),
            grouper.pending_row_counts() == Seq::<(u64, Seq<nat>)>::empty(),
            grouper.current_tile() is None,
            grouper.current_slices() == Seq::<B>::empty(),
            grouper.current_rows() == 0,
            grouper.chunk_rows() == 0,
            grouper.row_limit() == row_limit,
            grouper.tile_limit() == tile_limit,
    {
        let grouper = TileGrouper {
            current_tile: None,
            current_slices: Vec::new(),
            current_rows: 0,
            current_counts: Ghost(Seq::empty()),
            chunk: Vec::new(),
            chunk_counts: Ghost(Seq::empty()),
            chunk_rows: 0,
            row_limit,
            tile_limit,
        };
        assert(grouper.chunk() =~= Seq::<(u64, Seq<B>)>::empty());
        assert(flatten_groups(Seq::<(u64, Seq<nat>)>::empty()) =~= Seq::<nat>::empty());
        grouper
    }

    /// Takes the next run of `rows` rows with tile id `tile_id`. A run with
    /// the id of the current tile extends it; any other id finishes the
    /// current tile and starts a new one. When finishing a tile brings the
    /// finished tiles to the row limit or the tile limit, they are returned
    /// to be encoded and written, in order.
    pub fn push_run(&mut self, tile_id: u64, slice: B, rows: usize) -> (flushed: Option<Vec<(u64, Vec<B>)>>)
        requires
            old(self).wf(),
            old(self).current_rows() + rows + old(self).row_limit() <= usize::MAX,
        ensures
            final(self).wf(),
            final(self).row_limit() == old(self).row_limit(),
            final(self).tile_limit() == old(self).tile_limit(),
            final(self).current_tile() == Some(tile_id),
            old(self).current_tile() == Some(tile_id) ==> {
                &&& final(self).current_slices() == old(self).current_slices().push(slice)
                &&& final(self).current_rows() == old(self).current_rows() + rows
                &&& final(self).chunk() == old(self).chunk()
                &&& final(self).chunk_rows() == old(self).chunk_rows()
                &&& flushed is None
            },
            old(self).current_tile() is None ==> {
                &&& final(self).current_slices() == seq![slice]
                &&& final(self).current_rows() == rows
                &&& final(self).chunk() == old(self).chunk()
                &&& final(self).chunk_rows() == old(self).chunk_rows()
                &&& flushed is None
            },
            old(self).current_tile() is Some && old(self).current_tile().unwrap() != tile_id ==> {
                let c = old(self).current_tile().unwrap();
                let grown = old(self).chunk().push((c, old(self).current_slices()));
                let grown_rows = old(self).chunk_rows() + old(self).current_rows();
                &&& final(self).current_slices() == seq![slice]
                &&& final(self).current_rows() == rows
                &&& (flushed is Some <==> (grown_rows >= old(self).row_limit() || grown.len() >= old(self).tile_limit()))
                &&& flushed matches Some(f) ==> {
                    &&& f@.map_values(|g: (u64, Vec<B>)| group_view(g)) == grown
                    &&& final(self).chunk() == Seq::<(u64, Seq<B>)>::empty()
                    &&& final(self).chunk_rows() == 0
                }
                &&& flushed is None ==> final(self).chunk() == grown && final(self).chunk_rows() == grown_rows
            },
            ({
                let out = handed_on(flushed);
                &&& out + final(self).pending() == extend_groups(old(self).pending(), tile_id, slice)
                &&& final(self).pending().len() > 0
                &&& flatten_groups(out) + flatten_groups(final(self).pending())
                    == flatten_groups(old(self).pending()).push(slice)
                &&& neighbours_differ(out)
                &&& out.len() > 0 ==> out.last().0 != tile_id
            }),
            ({
                let out_counts = if flushed is Some {
                    old(self).pending_row_counts()
                } else {
                    Seq::<(u64, Seq<nat>)>::empty()
                };
                &&& out_counts + final(self).pending_row_counts()
                    == extend_groups(old(self).pending_row_counts(), tile_id, rows as nat)
                &&& counts_match(handed_on(flushed), out_counts)
                &&& flushed matches Some(f) ==> total_rows(out_counts) >= old(self).row_limit()
                    || f.len() >= old(self).tile_limit()
            }),
    {
        let ghost old_pending = self.pending();
        let ghost old_chunk = self.chunk();
        let ghost old_counts = self.pending_row_counts();
        let ghost old_chunk_counts = self.chunk_row_counts();
        let ghost old_current_counts = self.current_row_counts();
        let mut flushed: Option<Vec<(u64, Vec<B>)>> = None;
        let extends = match self.current_tile {
            Some(c) => c == tile_id,
            None => false,
        };
        if extends {
            self.current_slices.push(slice);
            self.current_rows = self.current_rows + rows;
            self.current_counts = Ghost(self.current_counts@.push(rows as nat));
            proof {
                assert(self.current_counts@.drop_last() =~= old_current_counts);
                assert(sum_counts(self.current_counts@) == sum_counts(old_current_counts) + rows as nat);
                assert(self.pending_row_counts() =~= old_counts.drop_last().push((tile_id, old_counts.last().1.push(rows as nat))));
                assert(Seq::<(u64, Seq<nat>)>::empty() + self.pending_row_counts() =~= self.pending_row_counts());
                assert(counts_match(handed_on(flushed), Seq::<(u64, Seq<nat>)>::empty()));
                assert(self.pending() =~= old_pending.drop_last().push((tile_id, self.current_slices@)));
                assert(old_pending.drop_last() =~= old_chunk);
                assert(self.chunk() =~= old_chunk);
                assert(self.pending().drop_last() =~= old_chunk);
                assert(flatten_groups(self.pending()) == flatten_groups(old_chunk) + self.current_slices@);
                assert forall|k: int| 0 <= k < self.pending().len() implies #[trigger] self.pending()[k].0 == old_pending[k].0 by {
                    if k < old_chunk.len() {
                        assert(self.pending()[k] == old_chunk[k]);
                        assert(old_pending[k] == old_chunk[k]);
                    }
                }
                assert(neighbours_differ(self.pending()));
                assert(flatten_groups(old_pending) == flatten_groups(old_chunk) + old(self).current_slices@);
                assert(flatten_groups(Seq::<(u64, Seq<B>)>::empty()) =~= Seq::<B>::empty());
                assert(flatten_groups(handed_on(flushed)) + flatten_groups(self.pending())
                    =~= flatten_groups(old_pending).push(slice));
            }
        } else {
            match self.current_tile {
                Some(c) => {
                    let mut slices: Vec<B> = Vec::new();
                    std::mem::swap(&mut slices, &mut self.current_slices);
                    let closed_rows = self.current_rows;
                    self.chunk.push((c, slices));
                    self.chunk_rows = self.chunk_rows + closed_rows;
                    self.chunk_counts = Ghost(self.chunk_counts@.push((c, self.current_counts@)));
                    proof {
                        assert(self.chunk() =~= old_chunk.push((c, slices@)));
                        assert(self.chunk_row_counts() =~= old_counts);
                        assert(flatten_groups(self.chunk_row_counts())
                            == flatten_groups(old_chunk_counts) + old_current_counts) by {
                            assert(self.chunk_row_counts().drop_last() =~= old_chunk_counts);
                        }
                        lemma_sum_counts_concat(flatten_groups(old_chunk_counts), old_current_counts);
                        assert forall|k: int| 0 <= k < self.chunk().len() implies
                            (#[trigger] self.chunk_row_counts()[k]).0 == self.chunk()[k].0
                            && self.chunk_row_counts()[k].1.len() == self.chunk()[k].1.len() by {
                            if k < old_chunk.len() {
                                assert(self.chunk_row_counts()[k] == old_chunk_counts[k]);
                                assert(self.chunk()[k] == old_chunk[k]);
                            }
                        }
                    }
                    if self.chunk_rows >= self.row_limit || self.chunk.len() >= self.tile_limit {
                        let mut out: Vec<(u64, Vec<B>)> = Vec::new();
                        std::mem::swap(&mut out, &mut self.chunk);
                        self.chunk_rows = 0;
                        self.chunk_counts = Ghost(Seq::empty());
                        flushed = Some(out);
                    }
                },
                None => {},
            }
            let mut fresh: Vec<B> = Vec::new();
            fresh.push(slice);
            self.current_slices = fresh;
            self.current_tile = Some(tile_id);
            self.current_rows = rows;
            self.current_counts = Ghost(Seq::<nat>::empty().push(rows as nat));
            proof {
                assert(self.current_slices@ =~= seq![slice]);
                assert(self.current_counts@.drop_last() =~= Seq::<nat>::empty());
                assert(sum_counts(Seq::<nat>::empty()) == 0);
                assert(sum_counts(self.current_counts@) == rows as nat);
                assert(flatten_groups(Seq::<(u64, Seq<nat>)>::empty()) =~= Seq::<nat>::empty());
                if flushed is None {
                    assert(self.pending_row_counts() =~= old_counts.push((tile_id, seq![rows as nat])));
                    assert(Seq::<(u64, Seq<nat>)>::empty() + self.pending_row_counts() =~= self.pending_row_counts());
                    assert(counts_match(handed_on(flushed), Seq::<(u64, Seq<nat>)>::empty()));
                } else {
                    assert(self.pending_row_counts() =~= seq![(tile_id, seq![rows as nat])]);
                    assert(old_counts + self.pending_row_counts() =~= old_counts.push((tile_id, seq![rows as nat])));
                }
                let out = handed_on(flushed);
                assert(self.chunk() =~= Seq::<(u64, Seq<B>)>::empty() || flushed is None);
                assert(neighbours_differ(old_pending.push((tile_id, seq![slice])))) by {
                    let np = old_pending.push((tile_id, seq![slice]));
                    assert forall|k: int| 0 < k < np.len() implies np[k - 1].0 != #[trigger] np[k].0 by {
                        if k < old_pending.len() {
                            assert(np[k] == old_pending[k]);
                            assert(np[k - 1] == old_pending[k - 1]);
                        }
                    }
                }
                if flushed is None {
                    assert(self.pending() =~= old_pending.push((tile_id, seq![slice])));
                    assert(out =~= Seq::<(u64, Seq<B>)>::empty());
                    assert(flatten_groups(out) =~= Seq::<B>::empty());
                    assert(self.pending().drop_last() =~= old_pending);
                    assert(flatten_groups(self.pending()) =~= flatten_groups(old_pending) + seq![slice]);
                } else {
                    assert(self.chunk() =~= Seq::<(u64, Seq<B>)>::empty());
                    assert(out =~= old_pending);
                    assert(self.pending() =~= seq![(tile_id, seq![slice])]);
                    assert(self.pending().drop_last() =~= Seq::<(u64, Seq<B>)>::empty());
                    assert(flatten_groups(Seq::<(u64, Seq<B>)>::empty()) =~= Seq::<B>::empty());
                    assert(flatten_groups(self.pending()) == flatten_groups(Seq::<(u64, Seq<B>)>::empty()) + seq![slice]);
                    assert(flatten_groups(self.pending()) =~= seq![slice]);
                }
            }
        }
        flushed
    }

    /// Finishes the stream: returns every tile not yet handed on, the
    /// current one last, and leaves the grouper as new.
    pub fn finish(&mut self) -> (last: Vec<(u64, Vec<B>)>)
        requires
            old(self).wf(),
        ensures
            last@.map_values(|g: (u64, Vec<B>)| group_view(g)) == old(self).pending(),
            final(self).wf(),
            final(self).pending() == Seq::<(u64, Seq<B>)>::empty(),
            final(self).pending_row_counts() == Seq::<(u64, Seq<nat>)>::empty(),
            final(self).current_tile() is None,
            final(self).current_slices() == Seq::<B>::empty(),
            final(self).current_rows() == 0,
            final(self).chunk_rows() == 0,
            final(self).row_limit() == old(self).row_limit(),
            final(self).tile_limit() == old(self).tile_limit(),
    {
        let ghost old_chunk = self.chunk();
        match self.current_tile {
            Some(t) => {
                let mut slices: Vec<B> = Vec::new();
                std::mem::swap(&mut slices, &mut self.current_slices);
                self.chunk.push((t, slices));
                proof {
                    assert(self.chunk() =~= old_chunk.push((t, slices@)));
                }
            },
            None => {},
        }
        let mut out: Vec<(u64, Vec<B>)> = Vec::new();
        std::mem::swap(&mut out, &mut self.chunk);
        self.current_tile = None;
        self.current_rows = 0;
        self.current_slices = Vec::new();
        self.chunk_rows = 0;
        self.current_counts = Ghost(Seq::empty());
        self.chunk_counts = Ghost(Seq::empty());
        proof {
            assert(self.chunk() =~= Seq::<(u64, Seq<B>)>::empty());
            assert(flatten_groups(Seq::<(u64, Seq<nat>)>::empty()) =~= Seq::<nat>::empty());
        }
        out
    }
}

} // verus!
