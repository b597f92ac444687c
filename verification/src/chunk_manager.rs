use vstd::prelude::*;
use std::collections::HashMap;
use crate::block::BlockID;
use crate::chunk::Chunk;
use crate::column::ChunkColumn;
use crate::chunk::block_index;
use crate::coords::{chunk_coord, local_coord};

verus! {

broadcast use vstd::std_specs::hash::group_hash_axioms;

/// One pending block edit: the priority it was made with (0 for
/// generation-origin writes, 1 and above for external edits), the block
/// that was written and the global coordinates of the cell.
#[derive(Clone, Copy, PartialEq, Eq, Structural, Debug)]
pub struct ChangeEntry {
    pub priority: i32,
    pub block: BlockID,
    pub x: i32,
    pub y: i32,
    pub z: i32,
}

/// The key under which a column at horizontal chunk coordinates is
/// stored: both coordinates packed into one integer.
pub open spec fn spec_column_key(x: i32, z: i32) -> u64 {
    ((x as u32 as u64) << 32) | (z as u32 as u64)
}

pub fn column_key(x: i32, z: i32) -> (k: u64)
    ensures
        k == spec_column_key(x, z),
{
    ((x as u32 as u64) << 32) | (z as u32 as u64)
}

/// Distinct horizontal coordinates always pack to distinct keys.
pub proof fn lemma_column_key_injective(x1: i32, z1: i32, x2: i32, z2: i32)
    requires
        spec_column_key(x1, z1) == spec_column_key(x2, z2),
    ensures
        x1 == x2 && z1 == z2,
{
    assert((((x1 as u32 as u64) << 32) | (z1 as u32 as u64)) == (((x2 as u32 as u64) << 32) | (
    z2 as u32 as u64)) ==> x1 == x2 && z1 == z2) by (bit_vector);
}

/// The world map: every loaded column, keyed by horizontal chunk
/// coordinates, plus the deduplicated list of pending block edits.
///
/// `column_coords` mirrors the key set of the map in insertion order so
/// that the loaded columns can be walked deterministically.
pub struct ChunkManager {
    pub loaded_chunk_columns: HashMap<u64, ChunkColumn>,
    pub column_coords: Vec<(i32, i32)>,
    pub block_changelist: Vec<ChangeEntry>,
}

impl ChunkManager {
    pub open spec fn spec_columns(self) -> Map<u64, ChunkColumn> {
        self.loaded_chunk_columns@
    }

    pub open spec fn spec_coords(self) -> Seq<(i32, i32)> {
        self.column_coords@
    }

    pub open spec fn spec_changelist(self) -> Seq<ChangeEntry> {
        self.block_changelist@
    }

    /// A column is loaded at the given horizontal chunk coordinates.
    pub open spec fn spec_has_column(self, x: i32, z: i32) -> bool {
        self.spec_columns().contains_key(spec_column_key(x, z))
    }

    /// The column loaded at the given horizontal chunk coordinates.
    pub open spec fn spec_column_at(self, x: i32, z: i32) -> ChunkColumn {
        self.spec_columns()[spec_column_key(x, z)]
    }

    /// The chunk at full chunk coordinates, if its column is loaded and
    /// the vertical coordinate lies inside the world.
    pub open spec fn spec_chunk_at(self, x: i32, y: i32, z: i32) -> Option<Chunk> {
        if 0 <= y < 16 && self.spec_has_column(x, z) {
            Some(self.spec_column_at(x, z).spec_chunks()[y as int])
        } else {
            None
        }
    }

    /// The block at global coordinates, if its chunk is loaded.  The
    /// coordinates are unbounded integers so that neighbour offsets can
    /// be written without overflow concerns; global coordinates of real
    /// cells always fit in `i32`.
    pub open spec fn spec_block_at_world(self, x: int, y: int, z: int) -> Option<BlockID> {
        let cx = chunk_coord(x) as i32;
        let cy = chunk_coord(y) as i32;
        let cz = chunk_coord(z) as i32;
        match self.spec_chunk_at(cx, cy, cz) {
            Some(c) => Some(
                c.spec_block_at(local_coord(x), local_coord(y), local_coord(z)),
            ),
            None => None,
        }
    }

    /// Every loaded column is well formed, the coordinate list mirrors
    /// the key set exactly and without duplicates, and the change list
    /// holds no entry twice.
    pub open spec fn wf(self) -> bool {
        &&& forall|k: u64|
            self.spec_columns().contains_key(k) ==> (#[trigger] self.spec_columns()[k]).wf()
        &&& forall|i: int|
            0 <= i < self.spec_coords().len() ==> self.spec_columns().contains_key(
                spec_column_key((#[trigger] self.spec_coords()[i]).0, self.spec_coords()[i].1),
            )
        &&& forall|k: u64|
            self.spec_columns().contains_key(k) ==> exists|i: int|
                0 <= i < self.spec_coords().len() && spec_column_key(
                    (#[trigger] self.spec_coords()[i]).0,
                    self.spec_coords()[i].1,
                ) == k
        &&& forall|i: int, j: int|
            0 <= i < j < self.spec_coords().len() ==> self.spec_coords()[i]
                != self.spec_coords()[j]
        &&& forall|i: int, j: int|
            0 <= i < j < self.spec_changelist().len() ==> self.spec_changelist()[i]
                != self.spec_changelist()[j]
    }

    pub fn new() -> (m: ChunkManager)
        ensures
            m.wf(),
            m.spec_columns() == Map::<u64, ChunkColumn>::empty(),
            m.spec_coords() == Seq::<(i32, i32)>::empty(),
            m.spec_changelist() == Seq::<ChangeEntry>::empty(),
    {
        ChunkManager {
            loaded_chunk_columns: HashMap::new(),
            column_coords: Vec::new(),
            block_changelist: Vec::new(),
        }
    }

    /// Look a column up by its horizontal chunk coordinates.
    pub fn get_column(&self, x: i32, z: i32) -> (r: Option<&ChunkColumn>)
        ensures
            match r {
                Some(c) => self.spec_has_column(x, z) && *c == self.spec_column_at(x, z),
                None => !self.spec_has_column(x, z),
            },
    {
        let k = column_key(x, z);
        self.loaded_chunk_columns.get(&k)
    }

    /// Look a chunk up by full chunk coordinates; a vertical coordinate
    /// outside `[0, 16)` is uniformly "no chunk".
    pub fn get_chunk(&self, x: i32, y: i32, z: i32) -> (r: Option<&Chunk>)
        requires
            self.wf(),
        ensures
            match r {
                Some(c) => self.spec_chunk_at(x, y, z) == Some(*c),
                None => self.spec_chunk_at(x, y, z) is None,
            },
    {
        if y < 0 || y >= 16 {
            return None;
        }
        match self.get_column(x, z) {
            Some(col) => Some(col.get_chunk(y as usize)),
            None => None,
        }
    }

    /// Insert a column if the slot is still free; an already loaded
    /// column is never displaced.
    pub fn add_chunk_column(&mut self, xz: (i32, i32), chunk_column: ChunkColumn)
        requires
            old(self).wf(),
            chunk_column.wf(),
        ensures
            final(self).wf(),
            final(self).spec_columns() == (if old(self).spec_has_column(xz.0, xz.1) {
                old(self).spec_columns()
            } else {
                old(self).spec_columns().insert(spec_column_key(xz.0, xz.1), chunk_column)
            }),
            final(self).spec_coords() == (if old(self).spec_has_column(xz.0, xz.1) {
                old(self).spec_coords()
            } else {
                old(self).spec_coords().push(xz)
            }),
            final(self).spec_changelist() == old(self).spec_changelist(),
    {
        let k = column_key(xz.0, xz.1);
        if !self.loaded_chunk_columns.contains_key(&k) {
            self.loaded_chunk_columns.insert(k, chunk_column);
            self.column_coords.push(xz);
            proof {
                self.lemma_wf_after_insert(*old(self), xz, chunk_column);
            }
        }
    }

    /// Inserting a fresh column and appending its coordinates keeps the
    /// map and the coordinate list mirrored.
    proof fn lemma_wf_after_insert(self, pre: ChunkManager, xz: (i32, i32), col: ChunkColumn)
        requires
            pre.wf(),
            !pre.spec_has_column(xz.0, xz.1),
            col.wf(),
            self.spec_columns() == pre.spec_columns().insert(spec_column_key(xz.0, xz.1), col),
            self.spec_coords() == pre.spec_coords().push(xz),
            self.spec_changelist() == pre.spec_changelist(),
        ensures
            self.wf(),
    {
        let key = spec_column_key(xz.0, xz.1);
        let n = pre.spec_coords().len() as int;
        assert forall|i: int| 0 <= i < self.spec_coords().len() implies self.spec_columns()
            .contains_key(
            spec_column_key((#[trigger] self.spec_coords()[i]).0, self.spec_coords()[i].1),
        ) by {
            if i < n {
                assert(self.spec_coords()[i] == pre.spec_coords()[i]);
            } else {
                assert(self.spec_coords()[i] == xz);
            }
        }
        assert forall|k: u64| self.spec_columns().contains_key(k) implies exists|i: int|
            0 <= i < self.spec_coords().len() && spec_column_key(
                (#[trigger] self.spec_coords()[i]).0,
                self.spec_coords()[i].1,
            ) == k by {
            if k == key {
                assert(self.spec_coords()[n] == xz);
                assert(spec_column_key((self.spec_coords()[n]).0, self.spec_coords()[n].1) == k);
            } else {
                assert(pre.spec_columns().contains_key(k));
                let i = choose|i: int|
                    0 <= i < n && spec_column_key(
                        (#[trigger] pre.spec_coords()[i]).0,
                        pre.spec_coords()[i].1,
                    ) == k;
                assert(self.spec_coords()[i] == pre.spec_coords()[i]);
                assert(spec_column_key((self.spec_coords()[i]).0, self.spec_coords()[i].1) == k);
            }
        }
        assert forall|a: int, b: int|
            0 <= a < b < self.spec_coords().len() implies self.spec_coords()[a]
            != self.spec_coords()[b] by {
            if b == n {
                assert(self.spec_coords()[a] == pre.spec_coords()[a]);
                if pre.spec_coords()[a] == xz {
                    assert(pre.spec_columns().contains_key(
                        spec_column_key((pre.spec_coords()[a]).0, pre.spec_coords()[a].1),
                    ));
                    assert(false);
                }
            } else {
                assert(self.spec_coords()[a] == pre.spec_coords()[a]);
                assert(self.spec_coords()[b] == pre.spec_coords()[b]);
            }
        }
    }

    /// Remove a column and hand it back, for recycling into the pool.
    pub fn remove_chunk_column(&mut self, xz: &(i32, i32)) -> (r: Option<ChunkColumn>)
        requires
            old(self).wf(),
        ensures
            final(self).wf(),
            final(self).spec_columns() == old(self).spec_columns().remove(
                spec_column_key(xz.0, xz.1),
            ),
            final(self).spec_changelist() == old(self).spec_changelist(),
            match r {
                Some(c) => old(self).spec_has_column(xz.0, xz.1) && c == old(
                    self,
                ).spec_column_at(xz.0, xz.1) && c.wf(),
                None => !old(self).spec_has_column(xz.0, xz.1),
            },
    {
        let k = column_key(xz.0, xz.1);
        match self.loaded_chunk_columns.remove(&k) {
            Some(col) => {
                proof {
                    assert(old(self).spec_columns().contains_key(k));
                    let j0 = choose|j: int|
                        0 <= j < old(self).spec_coords().len() && spec_column_key(
                            (#[trigger] old(self).spec_coords()[j]).0,
                            old(self).spec_coords()[j].1,
                        ) == k;
                    assert(self.column_coords@ == old(self).spec_coords());
                    assert(0 <= j0 < self.column_coords@.len() && spec_column_key(
                        (self.column_coords@[j0]).0,
                        self.column_coords@[j0].1,
                    ) == k);
                }
                let mut i: usize = 0;
                loop
                    invariant
                        i <= self.column_coords@.len(),
                        self.column_coords@ == old(self).spec_coords(),
                        k == spec_column_key(xz.0, xz.1),
                        forall|j: int| 0 <= j < i ==> self.column_coords@[j] != *xz,
                        exists|j: int|
                            0 <= j < self.column_coords@.len() && spec_column_key(
                                (#[trigger] self.column_coords@[j]).0,
                                self.column_coords@[j].1,
                            ) == k,
                    ensures
                        self.column_coords@ == old(self).spec_coords(),
                        0 <= i < self.column_coords@.len(),
                        self.column_coords@[i as int] == *xz,
                    decreases self.column_coords@.len() - i,
                {
                    if i >= self.column_coords.len() {
                        proof {
                            let j = choose|j: int|
                                0 <= j < self.column_coords@.len() && spec_column_key(
                                    (#[trigger] self.column_coords@[j]).0,
                                    self.column_coords@[j].1,
                                ) == k;
                            lemma_column_key_injective(
                                self.column_coords@[j].0,
                                self.column_coords@[j].1,
                                xz.0,
                                xz.1,
                            );
                            assert(self.column_coords@[j] =~= *xz);
                            assert(false);
                        }
                    }
                    let c = self.column_coords[i];
                    if c.0 == xz.0 && c.1 == xz.1 {
                        proof {
                            assert(self.column_coords@[i as int] =~= *xz);
                        }
                        break;
                    }
                    i = i + 1;
                }
                self.column_coords.remove(i);
                proof {
                    self.lemma_wf_after_remove(*old(self), *xz, i as int);
                }
                Some(col)
            },
            None => {
                proof {
                    assert(self.loaded_chunk_columns@ =~= old(self).spec_columns());
                    assert(self.spec_columns() == old(self).spec_columns());
                    assert(self.spec_coords() == old(self).spec_coords());
                    assert(self.spec_changelist() == old(self).spec_changelist());
                }
                None
            },
        }
    }

    /// After a column and its coordinate-list entry are both removed,
    /// the mirror between the two is intact again.
    proof fn lemma_wf_after_remove(self, pre: ChunkManager, xz: (i32, i32), i: int)
        requires
            pre.wf(),
            0 <= i < pre.spec_coords().len(),
            pre.spec_coords()[i] == xz,
            self.spec_columns() == pre.spec_columns().remove(spec_column_key(xz.0, xz.1)),
            self.spec_coords() == pre.spec_coords().remove(i),
            self.spec_changelist() == pre.spec_changelist(),
        ensures
            self.wf(),
    {
        let key = spec_column_key(xz.0, xz.1);
        let n = pre.spec_coords().len() as int;
        assert forall|j: int| 0 <= j < self.spec_coords().len() implies self.spec_columns()
            .contains_key(
            spec_column_key((#[trigger] self.spec_coords()[j]).0, self.spec_coords()[j].1),
        ) by {
            let pj = if j < i {
                j
            } else {
                j + 1
            };
            assert(self.spec_coords()[j] == pre.spec_coords()[pj]);
            let c = pre.spec_coords()[pj];
            if spec_column_key(c.0, c.1) == key {
                lemma_column_key_injective(c.0, c.1, xz.0, xz.1);
                assert(c == xz);
                assert(pj != i);
                assert(false);
            }
        }
        assert forall|k: u64| self.spec_columns().contains_key(k) implies exists|j: int|
            0 <= j < self.spec_coords().len() && spec_column_key(
                (#[trigger] self.spec_coords()[j]).0,
                self.spec_coords()[j].1,
            ) == k by {
            assert(pre.spec_columns().contains_key(k) && k != key);
            let pj = choose|pj: int|
                0 <= pj < n && spec_column_key(
                    (#[trigger] pre.spec_coords()[pj]).0,
                    pre.spec_coords()[pj].1,
                ) == k;
            assert(pj != i);
            let j = if pj < i {
                pj
            } else {
                pj - 1
            };
            assert(self.spec_coords()[j] == pre.spec_coords()[pj]);
            assert(spec_column_key(self.spec_coords()[j].0, self.spec_coords()[j].1) == k);
        }
        assert forall|a: int, b: int|
            0 <= a < b < self.spec_coords().len() implies self.spec_coords()[a]
            != self.spec_coords()[b] by {
            let pa = if a < i {
                a
            } else {
                a + 1
            };
            let pb = if b < i {
                b
            } else {
                b + 1
            };
            assert(self.spec_coords()[a] == pre.spec_coords()[pa]);
            assert(self.spec_coords()[b] == pre.spec_coords()[pb]);
        }
    }

    /// The loaded horizontal coordinates, in insertion order.
    pub fn loaded_coords(&self) -> (r: Vec<(i32, i32)>)
        ensures
            r@ == self.spec_coords(),
    {
        let mut r: Vec<(i32, i32)> = Vec::new();
        let mut i: usize = 0;
        while i < self.column_coords.len()
            invariant
                i <= self.column_coords@.len(),
                r@.len() == i,
                forall|j: int| 0 <= j < i ==> r@[j] == self.spec_coords()[j],
            decreases self.column_coords@.len() - i,
        {
            r.push(self.column_coords[i]);
            i = i + 1;
        }
        proof {
            assert(r@ =~= self.spec_coords());
        }
        r
    }

    /// A freshly inserted column in the empty starting state.
    pub open spec fn spec_column_fresh(c: ChunkColumn) -> bool {
        &&& c.wf()
        &&& forall|i: int|
            0 <= i < 16 ==> (#[trigger] c.spec_chunks()[i]).spec_blocks() == Seq::new(
                4096,
                |j: int| BlockID::Air,
            )
        &&& forall|i: int|
            0 <= i < 16 ==> !(#[trigger] c.spec_chunks()[i]).is_generated
                && !c.spec_chunks()[i].is_uploaded_to_gpu
        &&& forall|i: int| 0 <= i < 256 ==> (#[trigger] c.spec_heights()[i]) == 0
        &&& !c.has_foliage
    }

    /// Preload the fixed 2x2 square of empty columns at the origin:
    /// those four slots get a fresh empty column each (slots already
    /// loaded are left as they are), and nothing else changes.
    pub fn preload_some_chunks(&mut self)
        requires
            old(self).wf(),
        ensures
            final(self).wf(),
            final(self).spec_changelist() == old(self).spec_changelist(),
            forall|a: i32, b: i32|
                0 <= a < 2 && 0 <= b < 2 ==> #[trigger] final(self).spec_has_column(a, b),
            forall|a: i32, b: i32|
                0 <= a < 2 && 0 <= b < 2 && !old(self).spec_has_column(a, b)
                    ==> ChunkManager::spec_column_fresh(#[trigger] final(self).spec_column_at(a, b)),
            forall|a: i32, b: i32|
                !(0 <= a < 2 && 0 <= b < 2) ==> #[trigger] final(self).spec_has_column(a, b)
                    == old(self).spec_has_column(a, b),
            forall|a: i32, b: i32|
                (!(0 <= a < 2 && 0 <= b < 2) || old(self).spec_has_column(a, b)) && old(
                    self,
                ).spec_has_column(a, b) ==> #[trigger] final(self).spec_column_at(a, b) == old(
                    self,
                ).spec_column_at(a, b),
    {
        let mut z: i32 = 0;
        while z < 2
            invariant
                self.wf(),
                self.spec_changelist() == old(self).spec_changelist(),
                0 <= z <= 2,
                forall|a: i32, b: i32|
                    0 <= a < 2 && 0 <= b < z ==> #[trigger] self.spec_has_column(a, b),
                forall|a: i32, b: i32|
                    0 <= a < 2 && 0 <= b < z && !old(self).spec_has_column(a, b)
                        ==> ChunkManager::spec_column_fresh(
                        #[trigger] self.spec_column_at(a, b),
                    ),
                forall|a: i32, b: i32|
                    !(0 <= a < 2 && 0 <= b < z) ==> #[trigger] self.spec_has_column(a, b) == old(
                        self,
                    ).spec_has_column(a, b),
                forall|a: i32, b: i32|
                    (!(0 <= a < 2 && 0 <= b < z) || old(self).spec_has_column(a, b)) && old(
                        self,
                    ).spec_has_column(a, b) ==> #[trigger] self.spec_column_at(a, b) == old(
                        self,
                    ).spec_column_at(a, b),
            decreases 2 - z,
        {
            let mut x: i32 = 0;
            while x < 2
                invariant
                    self.wf(),
                    self.spec_changelist() == old(self).spec_changelist(),
                    0 <= z < 2,
                    0 <= x <= 2,
                    forall|a: i32, b: i32|
                        0 <= a < 2 && 0 <= b < 2 && (b < z || (b == z && a < x))
                            ==> #[trigger] self.spec_has_column(a, b),
                    forall|a: i32, b: i32|
                        0 <= a < 2 && 0 <= b < 2 && (b < z || (b == z && a < x)) && !old(
                            self,
                        ).spec_has_column(a, b) ==> ChunkManager::spec_column_fresh(
                            #[trigger] self.spec_column_at(a, b),
                        ),
                    forall|a: i32, b: i32|
                        !(0 <= a < 2 && 0 <= b < 2 && (b < z || (b == z && a < x)))
                            ==> #[trigger] self.spec_has_column(a, b) == old(
                            self,
                        ).spec_has_column(a, b),
                    forall|a: i32, b: i32|
                        (!(0 <= a < 2 && 0 <= b < 2 && (b < z || (b == z && a < x))) || old(
                            self,
                        ).spec_has_column(a, b)) && old(self).spec_has_column(a, b)
                            ==> #[trigger] self.spec_column_at(a, b) == old(
                            self,
                        ).spec_column_at(a, b),
                decreases 2 - x,
            {
                let ghost pre = *self;
                let fresh_col = ChunkColumn::new();
                self.add_chunk_column((x, z), fresh_col);
                proof {
                    assert forall|a: i32, b: i32| true implies (#[trigger] self.spec_has_column(
                        a,
                        b,
                    ) == (pre.spec_has_column(a, b) || (a == x && b == z))) && (
                    pre.spec_has_column(a, b) ==> self.spec_column_at(a, b) == pre.spec_column_at(
                        a,
                        b,
                    )) by {
                        if spec_column_key(a, b) == spec_column_key(x, z) {
                            lemma_column_key_injective(a, b, x, z);
                        }
                    }
                    assert forall|a: i32, b: i32|
                        0 <= a < 2 && 0 <= b < 2 && (b < z || (b == z && a < x + 1)) && !old(
                            self,
                        ).spec_has_column(a, b) implies ChunkManager::spec_column_fresh(
                        #[trigger] self.spec_column_at(a, b),
                    ) by {
                        if a == x && b == z {
                            if !pre.spec_has_column(x, z) {
                                assert(self.spec_column_at(x, z) == fresh_col);
                            } else {
                                assert(ChunkManager::spec_column_fresh(pre.spec_column_at(a, b)));
                            }
                        } else {
                            assert(ChunkManager::spec_column_fresh(pre.spec_column_at(a, b)));
                        }
                    }
                    assert forall|a: i32, b: i32|
                        (!(0 <= a < 2 && 0 <= b < 2 && (b < z || (b == z && a < x + 1))) || old(
                            self,
                        ).spec_has_column(a, b)) && old(self).spec_has_column(a, b) implies
                        #[trigger] self.spec_column_at(a, b) == old(self).spec_column_at(a, b) by {
                        assert(pre.spec_has_column(a, b));
                        assert(pre.spec_column_at(a, b) == old(self).spec_column_at(a, b));
                    }
                }
                x = x + 1;
            }
            z = z + 1;
        }
    }

    /// Load a single column at the origin filled with cobblestone; a
    /// column already loaded there is left alone, and nothing else
    /// changes.
    pub fn single_chunk(&mut self)
        requires
            old(self).wf(),
        ensures
            final(self).wf(),
            final(self).spec_changelist() == old(self).spec_changelist(),
            final(self).spec_has_column(0, 0),
            !old(self).spec_has_column(0, 0) ==> final(self).spec_column_at(0, 0).wf() && forall|
                i: int,
            |
                0 <= i < 16 ==> (#[trigger] final(self).spec_column_at(0, 0).spec_chunks()[i])
                    .spec_blocks() == Seq::new(4096, |j: int| BlockID::Cobblestone),
            !old(self).spec_has_column(0, 0) ==> final(self).spec_columns() == old(
                self,
            ).spec_columns().insert(
                spec_column_key(0, 0),
                final(self).spec_column_at(0, 0),
            ),
            old(self).spec_has_column(0, 0) ==> final(self).spec_columns() == old(
                self,
            ).spec_columns(),
    {
        self.add_chunk_column((0, 0), ChunkColumn::full_of_block(BlockID::Cobblestone));
    }

    /// Transform global block coordinates into chunk coordinates plus
    /// chunk-local coordinates, with floor semantics on every axis.
    pub fn get_chunk_coords(x: i32, y: i32, z: i32) -> (r: (i32, i32, i32, u32, u32, u32))
        ensures
            r.0 == chunk_coord(x as int),
            r.1 == chunk_coord(y as int),
            r.2 == chunk_coord(z as int),
            r.3 == local_coord(x as int),
            r.4 == local_coord(y as int),
            r.5 == local_coord(z as int),
            r.3 < 16 && r.4 < 16 && r.5 < 16,
    {
        let chunk_x = crate::coords::floor_div_chunk(x);
        let chunk_y = crate::coords::floor_div_chunk(y);
        let chunk_z = crate::coords::floor_div_chunk(z);
        let block_x = crate::coords::rem_chunk(x);
        let block_y = crate::coords::rem_chunk(y);
        let block_z = crate::coords::rem_chunk(z);
        (chunk_x, chunk_y, chunk_z, block_x, block_y, block_z)
    }

    /// Transform chunk plus chunk-local coordinates back into global
    /// coordinates: the exact inverse of [`Self::get_chunk_coords`].
    pub fn get_global_coords(t: (i32, i32, i32, u32, u32, u32)) -> (r: (i32, i32, i32))
        requires
            t.3 < 16,
            t.4 < 16,
            t.5 < 16,
            i32::MIN <= 16 * (t.0 as int) + (t.3 as int) <= i32::MAX,
            i32::MIN <= 16 * (t.1 as int) + (t.4 as int) <= i32::MAX,
            i32::MIN <= 16 * (t.2 as int) + (t.5 as int) <= i32::MAX,
        ensures
            r.0 == 16 * (t.0 as int) + (t.3 as int),
            r.1 == 16 * (t.1 as int) + (t.4 as int),
            r.2 == 16 * (t.2 as int) + (t.5 as int),
    {
        let (chunk_x, chunk_y, chunk_z, block_x, block_y, block_z) = t;
        let x = 16 * chunk_x + block_x as i32;
        let y = 16 * chunk_y + block_y as i32;
        let z = 16 * chunk_z + block_z as i32;
        (x, y, z)
    }

    /// Read the block at global coordinates; `None` when the cell lies
    /// in no loaded chunk (above, below, or beyond the loaded columns).
    pub fn get_block(&self, x: i32, y: i32, z: i32) -> (r: Option<BlockID>)
        requires
            self.wf(),
        ensures
            r == self.spec_block_at_world(x as int, y as int, z as int),
    {
        let (chunk_x, chunk_y, chunk_z, block_x, block_y, block_z) = ChunkManager::get_chunk_coords(
            x,
            y,
            z,
        );
        match self.get_chunk(chunk_x, chunk_y, chunk_z) {
            Some(chunk) => Some(chunk.get_block(block_x, block_y, block_z)),
            None => None,
        }
    }

    /// Whether a loaded, non-air block sits at the global coordinates.
    pub fn is_solid_block_at(&self, x: i32, y: i32, z: i32) -> (r: bool)
        requires
            self.wf(),
        ensures
            r == match self.spec_block_at_world(x as int, y as int, z as int) {
                Some(b) => b != BlockID::Air,
                None => false,
            },
    {
        match self.get_block(x, y, z) {
            Some(b) => !b.is_air(),
            None => false,
        }
    }
}


impl ChunkManager {
    /// What one block write does to the world: the targeted cell (if its
    /// chunk is loaded) takes the new block, nothing else moves, and an
    /// edit to an already uploaded chunk lands in the change list once.
    pub open spec fn spec_set_block_rel(
        pre: ChunkManager,
        post: ChunkManager,
        priority: i32,
        x: i32,
        y: i32,
        z: i32,
        block: BlockID,
        r: bool,
    ) -> bool {
        let cx = chunk_coord(x as int) as i32;
        let cy = chunk_coord(y as int) as i32;
        let cz = chunk_coord(z as int) as i32;
        let key = spec_column_key(cx, cz);
        let entry = ChangeEntry { priority, block, x, y, z };
        &&& r == (pre.spec_chunk_at(cx, cy, cz) is Some)
        &&& post.spec_coords() == pre.spec_coords()
        &&& (!r ==> post.spec_columns() == pre.spec_columns() && post.spec_changelist()
            == pre.spec_changelist())
        &&& (r ==> {
            let c0 = pre.spec_column_at(cx, cz);
            let ch0 = c0.spec_chunks()[cy as int];
            &&& post.spec_columns().dom() == pre.spec_columns().dom()
            &&& forall|k: u64|
                pre.spec_columns().contains_key(k) && k != key
                    ==> (#[trigger] post.spec_columns()[k]) == pre.spec_columns()[k]
            &&& post.spec_column_at(cx, cz).spec_heights() == c0.spec_heights()
            &&& post.spec_column_at(cx, cz).has_foliage == c0.has_foliage
            &&& forall|i: int|
                0 <= i < 16 && i != cy ==> (#[trigger] post.spec_column_at(cx, cz).spec_chunks()[i])
                    == c0.spec_chunks()[i]
            &&& post.spec_column_at(cx, cz).spec_chunks()[cy as int].same_except_blocks(ch0)
            &&& post.spec_column_at(cx, cz).spec_chunks()[cy as int].spec_blocks()
                == ch0.spec_blocks().update(
                block_index(local_coord(x as int), local_coord(y as int), local_coord(z as int)),
                block,
            )
            &&& post.spec_changelist() == (if ch0.is_uploaded_to_gpu
                && !pre.spec_changelist().contains(entry) {
                pre.spec_changelist().push(entry)
            } else {
                pre.spec_changelist()
            })
        })
    }

    /// A successful block write changes exactly the targeted cell of the
    /// world, seen through global coordinates.
    pub proof fn lemma_set_block_world(
        pre: ChunkManager,
        post: ChunkManager,
        priority: i32,
        x: i32,
        y: i32,
        z: i32,
        block: BlockID,
    )
        requires
            pre.wf(),
            ChunkManager::spec_set_block_rel(pre, post, priority, x, y, z, block, true),
        ensures
            forall|x2: int, y2: int, z2: int|
                i32::MIN <= x2 <= i32::MAX && i32::MIN <= y2 <= i32::MAX && i32::MIN <= z2
                    <= i32::MAX ==> #[trigger] post.spec_block_at_world(x2, y2, z2) == (if x2 == x
                    && y2 == y && z2 == z {
                    Some(block)
                } else {
                    pre.spec_block_at_world(x2, y2, z2)
                }),
    {
        let cx = chunk_coord(x as int) as i32;
        let cy = chunk_coord(y as int) as i32;
        let cz = chunk_coord(z as int) as i32;
        let key = spec_column_key(cx, cz);
        assert forall|x2: int, y2: int, z2: int|
            i32::MIN <= x2 <= i32::MAX && i32::MIN <= y2 <= i32::MAX && i32::MIN <= z2
                <= i32::MAX implies #[trigger] post.spec_block_at_world(x2, y2, z2) == (if x2 == x
                && y2 == y && z2 == z {
                Some(block)
            } else {
                pre.spec_block_at_world(x2, y2, z2)
            }) by {
            crate::coords::lemma_coord_round_trip(x2);
            crate::coords::lemma_coord_round_trip(y2);
            crate::coords::lemma_coord_round_trip(z2);
            crate::coords::lemma_coord_round_trip(x as int);
            crate::coords::lemma_coord_round_trip(y as int);
            crate::coords::lemma_coord_round_trip(z as int);
            let cx2 = chunk_coord(x2) as i32;
            let cy2 = chunk_coord(y2) as i32;
            let cz2 = chunk_coord(z2) as i32;
            let key2 = spec_column_key(cx2, cz2);
            let bi = block_index(
                local_coord(x as int),
                local_coord(y as int),
                local_coord(z as int),
            );
            let ch0 = pre.spec_column_at(cx, cz).spec_chunks()[cy as int];
            assert(pre.spec_has_column(cx, cz));
            assert(pre.spec_columns()[key].wf());
            assert(ch0.wf());
            assert(0 <= bi < 4096);
            if x2 == x && y2 == y && z2 == z {
                assert(post.spec_columns().dom().contains(key));
                assert(post.spec_column_at(cx, cz).spec_chunks()[cy as int].spec_blocks()[bi]
                    == block);
            } else {
                if key2 == key {
                    lemma_column_key_injective(cx2, cz2, cx, cz);
                    assert(chunk_coord(x2) == chunk_coord(x as int));
                    assert(chunk_coord(z2) == chunk_coord(z as int));
                    assert(post.spec_columns().dom().contains(key) == pre.spec_columns().dom()
                        .contains(key));
                    if cy2 == cy && 0 <= cy2 < 16 {
                        assert(post.spec_columns().dom().contains(key));
                        let bi2 = block_index(local_coord(x2), local_coord(y2), local_coord(z2));
                        assert(0 <= bi2 < 4096);
                        if bi2 == bi {
                            crate::meshing::lemma_block_index_injective(
                                local_coord(x2),
                                local_coord(y2),
                                local_coord(z2),
                                local_coord(x as int),
                                local_coord(y as int),
                                local_coord(z as int),
                            );
                            crate::meshing::lemma_global_coord_determined(x2, x as int);
                            crate::meshing::lemma_global_coord_determined(y2, y as int);
                            crate::meshing::lemma_global_coord_determined(z2, z as int);
                            assert(false);
                        }
                    }
                } else {
                    if pre.spec_columns().contains_key(key2) {
                        assert(post.spec_columns()[key2] == pre.spec_columns()[key2]);
                    }
                    assert(post.spec_columns().dom().contains(key2) == pre.spec_columns().dom()
                        .contains(key2));
                }
            }
        }
    }

    /// Whether the change list already records this exact edit.
    fn changelist_contains(&self, e: ChangeEntry) -> (r: bool)
        ensures
            r == self.spec_changelist().contains(e),
    {
        let mut i: usize = 0;
        while i < self.block_changelist.len()
            invariant
                i <= self.block_changelist@.len(),
                forall|j: int| 0 <= j < i ==> self.block_changelist@[j] != e,
            decreases self.block_changelist@.len() - i,
        {
            if self.block_changelist[i] == e {
                assert(self.spec_changelist()[i as int] == e);
                return true;
            }
            i = i + 1;
        }
        assert(forall|j: int|
            0 <= j < self.spec_changelist().len() ==> self.spec_changelist()[j] != e);
        false
    }

    /// Write a block through global coordinates.  Returns whether the
    /// target chunk was loaded; if it was and is already on the GPU, the
    /// edit is recorded in the change list under the given priority,
    /// never re-meshing synchronously.
    fn set_block_internal(&mut self, priority: i32, x: i32, y: i32, z: i32, block: BlockID) -> (r:
        bool)
        requires
            old(self).wf(),
        ensures
            final(self).wf(),
            ChunkManager::spec_set_block_rel(
                *old(self),
                *final(self),
                priority,
                x,
                y,
                z,
                block,
                r,
            ),
    {
        let (chunk_x, chunk_y, chunk_z, block_x, block_y, block_z) = ChunkManager::get_chunk_coords(
            x,
            y,
            z,
        );
        if chunk_y < 0 || chunk_y >= 16 {
            return false;
        }
        let key = column_key(chunk_x, chunk_z);
        let mut col = match self.loaded_chunk_columns.remove(&key) {
            Some(c) => c,
            None => {
                proof {
                    assert(self.loaded_chunk_columns@ =~= old(self).spec_columns());
                    assert(self.spec_columns() == old(self).spec_columns());
                    assert(self.spec_coords() == old(self).spec_coords());
                    assert(self.spec_changelist() == old(self).spec_changelist());
                }
                return false;
            },
        };
        proof {
            assert(old(self).spec_columns().contains_key(key));
            assert(old(self).spec_columns()[key].wf());
            assert(col.spec_chunks()[chunk_y as int].wf());
        }
        let cyu = chunk_y as usize;
        let mut chunk = col.chunks.remove(cyu);
        chunk.set_block(block_x, block_y, block_z, block);
        let uploaded = chunk.is_uploaded_to_gpu;
        col.chunks.insert(cyu, chunk);
        proof {
            assert(col.chunks@ =~= old(self).spec_column_at(chunk_x, chunk_z).chunks@.update(
                chunk_y as int,
                col.chunks@[chunk_y as int],
            ));
        }
        self.loaded_chunk_columns.insert(key, col);
        proof {
            assert(self.spec_columns().dom() =~= old(self).spec_columns().dom());
            self.lemma_wf_preserved(*old(self));
        }
        if uploaded {
            let e = ChangeEntry { priority, block, x, y, z };
            if !self.changelist_contains(e) {
                self.block_changelist.push(e);
                proof {
                    assert forall|i: int, j: int|
                        0 <= i < j < self.spec_changelist().len() implies self.spec_changelist()[i]
                        != self.spec_changelist()[j] by {
                        if j == self.spec_changelist().len() - 1 {
                            assert(self.spec_changelist()[i] == old(self).spec_changelist()[i]);
                            assert(!old(self).spec_changelist().contains(e));
                            assert(old(self).spec_changelist()[i] != e);
                        }
                    }
                }
            }
        }
        true
    }

    /// Write a block as an externally triggered edit (a player or mob
    /// interacting with the world): change-list priority 1.
    pub fn put_block(&mut self, x: i32, y: i32, z: i32, block: BlockID) -> (r: bool)
        requires
            old(self).wf(),
        ensures
            final(self).wf(),
            ChunkManager::spec_set_block_rel(*old(self), *final(self), 1, x, y, z, block, r),
    {
        self.set_block_internal(1, x, y, z, block)
    }

    /// Write a block as part of generation: change-list priority 0.
    pub fn set_block(&mut self, x: i32, y: i32, z: i32, block: BlockID) -> (r: bool)
        requires
            old(self).wf(),
        ensures
            final(self).wf(),
            ChunkManager::spec_set_block_rel(*old(self), *final(self), 0, x, y, z, block, r),
    {
        self.set_block_internal(0, x, y, z, block)
    }

    /// Hand the whole change list over and clear it; each cycle drains
    /// the pending edits exactly once.
    pub fn drain_changelist(&mut self) -> (r: Vec<ChangeEntry>)
        requires
            old(self).wf(),
        ensures
            final(self).wf(),
            r@ == old(self).spec_changelist(),
            final(self).spec_changelist().len() == 0,
            final(self).spec_columns() == old(self).spec_columns(),
            final(self).spec_coords() == old(self).spec_coords(),
    {
        let mut out: Vec<ChangeEntry> = Vec::new();
        core::mem::swap(&mut out, &mut self.block_changelist);
        proof {
            assert(self.spec_columns() == old(self).spec_columns());
            assert(self.spec_coords() == old(self).spec_coords());
        }
        out
    }
}



impl ChunkManager {
    /// The change list deduplicates: writing the same block to the same
    /// cell twice at the same priority records the edit once - the
    /// second write leaves the change list exactly as the first left
    /// it.  Draining then empties it (see [`Self::drain_changelist`]).
    pub proof fn lemma_changelist_dedup(
        m0: ChunkManager,
        m1: ChunkManager,
        m2: ChunkManager,
        priority: i32,
        x: i32,
        y: i32,
        z: i32,
        block: BlockID,
    )
        requires
            ChunkManager::spec_set_block_rel(m0, m1, priority, x, y, z, block, true),
            ChunkManager::spec_set_block_rel(m1, m2, priority, x, y, z, block, true),
        ensures
            m2.spec_changelist() == m1.spec_changelist(),
    {
        let cx = chunk_coord(x as int) as i32;
        let cy = chunk_coord(y as int) as i32;
        let cz = chunk_coord(z as int) as i32;
        let entry = ChangeEntry { priority, block, x, y, z };
        let ch0 = m0.spec_column_at(cx, cz).spec_chunks()[cy as int];
        let ch1 = m1.spec_column_at(cx, cz).spec_chunks()[cy as int];
        assert(ch1.is_uploaded_to_gpu == ch0.is_uploaded_to_gpu);
        if ch0.is_uploaded_to_gpu {
            if m0.spec_changelist().contains(entry) {
                assert(m1.spec_changelist().contains(entry));
            } else {
                assert(m1.spec_changelist() == m0.spec_changelist().push(entry));
                assert(m1.spec_changelist()[m1.spec_changelist().len() - 1] == entry);
                assert(m1.spec_changelist().contains(entry));
            }
        }
    }
}


} // verus!
