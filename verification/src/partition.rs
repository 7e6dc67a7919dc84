use vstd::prelude::*;
use std::collections::HashMap;

verus! {

broadcast use vstd::std_specs::hash::group_hash_axioms;

/// The rows of level `z` among rows assigned the levels `zooms`.
pub open spec fn level_mask(zooms: Seq<u8>, z: u8) -> Seq<bool> {
    zooms.map_values(|v: u8| v == z)
}

/// Selects the rows assigned level `z`; the flag tells whether there is any.
pub fn zoom_mask(zooms: &Vec<u8>, z: u8) -> (selected: (Vec<bool>, bool))
    ensures
        selected.0@ == level_mask(zooms@, z),
        selected.1 <==> zooms@.contains(z),
{
    let mut mask: Vec<bool> = Vec::new();
    let mut any = false;
    let mut i: usize = 0;
    while i < zooms.len()
        invariant
            0 <= i <= zooms.len(),
            mask@ == level_mask(zooms@.take(i as int), z),
            any <==> zooms@.take(i as int).contains(z),
        decreases zooms.len() - i,
    {
        let is_z = zooms[i] == z;
        mask.push(is_z);
        if is_z {
            any = true;
        }
        proof {
            assert(zooms@.take(i + 1) =~= zooms@.take(i as int).push(zooms@[i as int]));
            assert(mask@ =~= level_mask(zooms@.take(i + 1), z));
            if any && !is_z {
                let j = choose|j: int| 0 <= j < i && zooms@.take(i as int)[j] == z;
                assert(zooms@.take(i + 1)[j] == z);
            }
            if is_z {
                assert(zooms@.take(i + 1)[i as int] == z);
            }
        }
        i = i + 1;
    }
    assert(zooms@.take(zooms.len() as int) =~= zooms@);
    (mask, any)
}

/// Law: the level masks split the rows: every row is selected by the mask
/// of its own level and by no other.
pub proof fn lemma_level_masks_partition(zooms: Seq<u8>, i: int, z: u8)
    requires
        0 <= i < zooms.len(),
    ensures
        level_mask(zooms, z)[i] <==> zooms[i] == z,
        level_mask(zooms, zooms[i])[i],
{
}

/// Rows of one level are written out once this many have gathered.
pub const ZOOM_FLUSH_ROWS: usize = 100_000;

/// Batches gathered per zoom level until enough rows are there to write.
pub struct ZoomBuffers<B> {
    buffers: HashMap<u8, (Vec<B>, usize)>,
}

impl<B> ZoomBuffers<B> {
    /// The batches gathered for level `z`.
    pub closed spec fn batches(&self, z: u8) -> Seq<B> {
        if self.buffers@.contains_key(z) { self.buffers@[z].0@ } else { Seq::empty() }
    }

    /// The rows gathered for level `z`.
    pub closed spec fn rows(&self, z: u8) -> nat {
        if self.buffers@.contains_key(z) { self.buffers@[z].1 as nat } else { 0 }
    }

    pub closed spec fn wf(&self) -> bool {
        forall|z: u8| self.buffers@.contains_key(z) ==> #[trigger] self.buffers@[z].1 < ZOOM_FLUSH_ROWS
    }

    /// No batches gathered on any level.
    pub fn new() -> (buffers: Self)
        ensures
            buffers.wf(),
            forall|z: u8| #[trigger] buffers.batches(z) == Seq::<B>::empty() && buffers.rows(z) == 0,
    {
        ZoomBuffers { buffers: HashMap::new() }
    }

    /// Adds a batch of `rows` rows to level `z`. When the level then holds
    /// `ZOOM_FLUSH_ROWS` rows or more, its batches are returned to be written
    /// and the level starts over empty.
    pub fn push(&mut self, z: u8, batch: B, rows: usize) -> (full: Option<Vec<B>>)
        requires
            old(self).wf(),
            rows + ZOOM_FLUSH_ROWS <= usize::MAX,
        ensures
            final(self).wf(),
            (full is Some) <==> old(self).rows(z) + rows >= ZOOM_FLUSH_ROWS,
            full matches Some(f) ==> {
                &&& f@ == old(self).batches(z).push(batch)
                &&& final(self).batches(z) == Seq::<B>::empty()
                &&& final(self).rows(z) == 0
            },
            full is None ==> {
                &&& final(self).batches(z) == old(self).batches(z).push(batch)
                &&& final(self).rows(z) == old(self).rows(z) + rows
            },
            forall|w: u8| w != z ==> #[trigger] final(self).batches(w) == old(self).batches(w)
                && final(self).rows(w) == old(self).rows(w),
    {
        let (mut batches, old_rows) = match self.buffers.remove(&z) {
            Some(entry) => entry,
            None => (Vec::new(), 0),
        };
        batches.push(batch);
        let total = old_rows + rows;
        if total >= ZOOM_FLUSH_ROWS {
            self.buffers.insert(z, (Vec::new(), 0));
            Some(batches)
        } else {
            self.buffers.insert(z, (batches, total));
            None
        }
    }

    /// Takes every level's gathered batches that are not empty, lowest level
    /// first, and leaves all levels empty.
    pub fn drain(&mut self) -> (rest: Vec<(u8, Vec<B>)>)
        requires
            old(self).wf(),
        ensures
            final(self).wf(),
            forall|z: u8| #[trigger] final(self).batches(z) == Seq::<B>::empty() && final(self).rows(z) == 0,
            forall|k: int| 0 <= k < rest@.len() ==> #[trigger] rest@[k].1@ == old(self).batches(rest@[k].0)
                && rest@[k].1@.len() > 0,
            forall|k: int, l: int| 0 <= k < l < rest@.len() ==> rest@[k].0 < rest@[l].0,
            forall|z: u8| old(self).batches(z).len() > 0 ==> exists|k: int| 0 <= k < rest@.len() && #[trigger] rest@[k].0 == z,
    {
        let ghost start = *self;
        let mut rest: Vec<(u8, Vec<B>)> = Vec::new();
        let mut z: u16 = 0;
        while z < 256
            invariant
                0 <= z <= 256,
                start.wf(),
                self.wf(),
                forall|w: u8| (w as u16) < z ==> #[trigger] self.batches(w) == Seq::<B>::empty() && self.rows(w) == 0,
                forall|w: u8| (w as u16) >= z ==> #[trigger] self.batches(w) == start.batches(w) && self.rows(w) == start.rows(w),
                forall|k: int| 0 <= k < rest@.len() ==> #[trigger] rest@[k].1@ == start.batches(rest@[k].0)
                    && rest@[k].1@.len() > 0 && (rest@[k].0 as u16) < z,
                forall|k: int, l: int| 0 <= k < l < rest@.len() ==> rest@[k].0 < rest@[l].0,
                forall|w: u8| (w as u16) < z && start.batches(w).len() > 0 ==> exists|k: int| 0 <= k < rest@.len() && #[trigger] rest@[k].0 == w,
            decreases 256 - z,
        {
            let level = z as u8;
            assert(level as u16 == z);
            let ghost prev = *self;
            let removed = self.buffers.remove(&level);
            proof {
                assert(self.buffers@ == prev.buffers@.remove(level));
                assert forall|w: u8| w != level implies #[trigger] self.batches(w) == prev.batches(w)
                    && self.rows(w) == prev.rows(w) by {
                    assert(self.buffers@.contains_key(w) == prev.buffers@.contains_key(w));
                }
                assert(self.batches(level) == Seq::<B>::empty() && self.rows(level) == 0);
                assert(prev.batches(level) == start.batches(level));
            }
            match removed {
                Some((batches, _)) => {
                    if batches.len() > 0 {
                        let ghost before = rest@;
                        rest.push((level, batches));
                        proof {
                            assert forall|k: int, l: int| 0 <= k < l < rest@.len() implies rest@[k].0 < rest@[l].0 by {
                                assert(rest@[k] == before[k]);
                                if l < before.len() {
                                    assert(rest@[l] == before[l]);
                                } else {
                                    assert(before[k].1@ == start.batches(before[k].0));
                                    assert((before[k].0 as u16) < z);
                                }
                            }
                            assert forall|w: u8| (w as u16) < z + 1 && start.batches(w).len() > 0 implies
                                exists|k: int| 0 <= k < rest@.len() && #[trigger] rest@[k].0 == w by {
                                if w == level {
                                    assert(rest@[rest@.len() - 1].0 == w);
                                } else {
                                    let k = choose|k: int| 0 <= k < before.len() && #[trigger] before[k].0 == w;
                                    assert(rest@[k] == before[k]);
                                }
                            }
                        }
                    }
                },
                None => {},
            }
            proof {
                assert forall|w: u8| (w as u16) > z implies #[trigger] self.batches(w) == start.batches(w)
                    && self.rows(w) == start.rows(w) by {
                    assert(w != level);
                    assert(self.batches(w) == prev.batches(w));
                    assert(prev.batches(w) == start.batches(w));
                }
            }
            z = z + 1;
        }
        rest
    }
}

} // verus!
