//! Columnar chunked storage for one component set.
//!
//! An archetype stores one row per entity. Every component of the set has a
//! column: the values, a per-row epoch, a per-chunk epoch, and one
//! column-level epoch. Rows are grouped in chunks of `CHUNK_LEN` so change
//! queries can skip whole chunks. Within a column the epochs are ordered:
//! every row epoch is at most its chunk's epoch, and every chunk epoch is at
//! most the column epoch.

use vstd::prelude::*;

use crate::comp::{comp_wf, CompVal, CompValue};
use crate::entity::EntityId;
use crate::epoch::EpochId;

verus! {

/// Number of rows per chunk; a power of two, so row index to chunk index is a
/// shift.
pub const CHUNK_LEN: usize = 256;

/// Chunk that row `r` belongs to.
pub open spec fn spec_chunk_of(r: int) -> int {
    r / (CHUNK_LEN as int)
}

/// Number of chunks needed for `n` rows.
pub open spec fn spec_n_chunks(n: int) -> int {
    (n + (CHUNK_LEN - 1)) / (CHUNK_LEN as int)
}

/// Chunk that row `idx` belongs to.
pub fn chunk_idx(idx: usize) -> (c: usize)
    ensures
        c == spec_chunk_of(idx as int),
{
    idx / CHUNK_LEN
}

/// Returns the chunk index if `idx` is the first row of its chunk.
pub fn first_of_chunk(idx: usize) -> (r: Option<usize>)
    ensures
        r is Some <==> idx as int % (CHUNK_LEN as int) == 0,
        r is Some ==> r->0 == spec_chunk_of(idx as int),
{
    if idx % CHUNK_LEN == 0 {
        Some(idx / CHUNK_LEN)
    } else {
        None
    }
}

/// Rows `0..n` lie in chunks `0..spec_n_chunks(n)`.
pub proof fn lemma_chunk_of_bound(r: int, n: int)
    by (nonlinear_arith)
    requires
        0 <= r < n,
    ensures
        0 <= spec_chunk_of(r) < spec_n_chunks(n),
{
}

/// Growing a row count by one adds a chunk exactly when the old count filled
/// its chunks completely, and the new row lands in the last chunk.
pub proof fn lemma_n_chunks_push(n: int)
    by (nonlinear_arith)
    requires
        0 <= n,
    ensures
        spec_n_chunks(n + 1) == if n % (CHUNK_LEN as int) == 0 {
            spec_n_chunks(n) + 1
        } else {
            spec_n_chunks(n)
        },
        spec_chunk_of(n) == spec_n_chunks(n + 1) - 1,
        spec_n_chunks(0) == 0,
{
}

/// Two archetypes whose columns carry the same keys contain the same
/// component sets.
pub proof fn lemma_has_comp_eq(a: &Archetype, b: &Archetype)
    requires
        a.columns@.len() == b.columns@.len(),
        forall|j: int|
            0 <= j < a.columns@.len() ==> (#[trigger] a.columns@[j]).comp == b.columns@[j].comp,
    ensures
        forall|k: u64| a.has_comp(k) == b.has_comp(k),
{
    assert forall|k: u64| a.has_comp(k) == b.has_comp(k) by {
        if a.has_comp(k) {
            let i = choose|i: int| 0 <= i < a.columns@.len() && (#[trigger] a.columns@[i]).comp == k;
            assert(b.columns@[i].comp == k);
        }
        if b.has_comp(k) {
            let i = choose|i: int| 0 <= i < b.columns@.len() && (#[trigger] b.columns@[i]).comp == k;
            assert(a.columns@[i].comp == k);
        }
    }
}

/// If two well-formed archetypes have the same column keys and a pair of rows
/// stores equal values in every column, the rows' component maps are equal.
pub proof fn lemma_comp_map_stable(pre: &Archetype, post: &Archetype, r_pre: int, r_post: int)
    requires
        pre.wf(),
        post.wf(),
        pre.columns@.len() == post.columns@.len(),
        forall|j: int|
            0 <= j < pre.columns@.len() ==> (#[trigger] pre.columns@[j]).comp
                == post.columns@[j].comp,
        0 <= r_pre < pre.spec_len(),
        0 <= r_post < post.spec_len(),
        forall|j: int|
            0 <= j < pre.columns@.len() ==> (#[trigger] post.columns@[j]).values@[r_post]
                == pre.columns@[j].values@[r_pre],
    ensures
        post.comp_map(r_post) == pre.comp_map(r_pre),
{
    lemma_has_comp_eq(pre, post);
    assert forall|k: u64| pre.has_comp(k) implies post.col_idx(k) == pre.col_idx(k)
        && post.comp_map(r_post)[k] == pre.comp_map(r_pre)[k] by {
        pre.lemma_col_idx(k);
        let i = pre.col_idx(k);
        assert(post.columns@[i].comp == k);
        post.lemma_col_idx(k);
    }
    assert(post.comp_map(r_post) =~= pre.comp_map(r_pre));
}

/// One component column of an archetype.
pub struct Column {
    /// Key of the component stored in this column.
    pub comp: u64,
    /// One stored value per row.
    pub values: Vec<CompValue>,
    /// Epoch of the last write to each row.
    pub entity_epochs: Vec<EpochId>,
    /// Epoch of the last write to any row of each chunk.
    pub chunk_epochs: Vec<EpochId>,
    /// Epoch of the last write to any row of the column.
    pub arch_epoch: EpochId,
}

/// Well-formedness of a column holding `n` rows: lengths line up and the
/// three epoch levels are ordered row <= chunk <= column.
pub open spec fn col_wf(c: Column, n: int) -> bool {
    &&& c.values@.len() == n
    &&& c.entity_epochs@.len() == n
    &&& c.chunk_epochs@.len() == spec_n_chunks(n)
    &&& forall|r: int|
        0 <= r < n ==> (#[trigger] c.entity_epochs@[r]).value
            <= c.chunk_epochs@[spec_chunk_of(r)].value
    &&& forall|k: int|
        0 <= k < spec_n_chunks(n) ==> (#[trigger] c.chunk_epochs@[k]).value <= c.arch_epoch.value
    &&& forall|r: int| 0 <= r < n ==> comp_wf(c.comp, (#[trigger] c.values@[r])@)
}

/// Columnar storage for all entities sharing one component set.
pub struct Archetype {
    /// The entity stored in each row.
    pub entities: Vec<EntityId>,
    /// One column per component of the set, sorted by component key.
    pub columns: Vec<Column>,
}

impl Archetype {
    /// Number of rows.
    pub open spec fn spec_len(&self) -> int {
        self.entities@.len() as int
    }

    /// Well-formedness: row space fits, columns are strictly sorted by key,
    /// and every column is well formed for the common row count.
    pub open spec fn wf(&self) -> bool {
        &&& self.entities@.len() < u32::MAX as int
        &&& forall|i: int, j: int|
            0 <= i < j < self.columns@.len() ==> (#[trigger] self.columns@[i]).comp
                < (#[trigger] self.columns@[j]).comp
        &&& forall|i: int|
            0 <= i < self.columns@.len() ==> col_wf(#[trigger] self.columns@[i], self.spec_len())
    }

    /// All column epochs are bounded by the world epoch `g`.
    pub open spec fn epochs_le(&self, g: u64) -> bool {
        forall|i: int|
            0 <= i < self.columns@.len() ==> (#[trigger] self.columns@[i]).arch_epoch.value <= g
    }

    /// True if the set contains the component with key `k`.
    pub open spec fn has_comp(&self, k: u64) -> bool {
        exists|i: int| 0 <= i < self.columns@.len() && (#[trigger] self.columns@[i]).comp == k
    }

    /// Index of the column with key `k`.
    pub open spec fn col_idx(&self, k: u64) -> int {
        choose|i: int| 0 <= i < self.columns@.len() && (#[trigger] self.columns@[i]).comp == k
    }

    /// The component keys in column order.
    pub open spec fn comp_seq(&self) -> Seq<u64> {
        self.columns@.map_values(|c: Column| c.comp)
    }

    /// An archetype whose columns carry exactly the keys `keys` contains a
    /// component if and only if `keys` does.
    pub proof fn lemma_keys_has(&self, keys: Seq<u64>)
        requires
            keys.len() == self.columns@.len(),
            forall|i: int| 0 <= i < keys.len() ==> (#[trigger] self.columns@[i]).comp == keys[i],
        ensures
            forall|x: u64| self.has_comp(x) == keys.contains(x),
    {
        assert forall|x: u64| self.has_comp(x) == keys.contains(x) by {
            if self.has_comp(x) {
                let i = choose|i: int|
                    0 <= i < self.columns@.len() && (#[trigger] self.columns@[i]).comp == x;
                assert(keys[i] == x);
            }
            if keys.contains(x) {
                let i = choose|i: int| 0 <= i < keys.len() && keys[i] == x;
                assert(self.columns@[i].comp == x);
            }
        }
    }

    /// The component set of this archetype.
    pub open spec fn type_set(&self) -> Set<u64> {
        Set::new(|k: u64| self.has_comp(k))
    }

    /// The components of row `r` as a map from key to value.
    pub open spec fn comp_map(&self, r: int) -> Map<u64, CompVal> {
        Map::new(
            |k: u64| self.has_comp(k),
            |k: u64| self.columns@[self.col_idx(k)].values@[r]@,
        )
    }

    /// In a well-formed archetype the column of key `k` is unique, and
    /// `col_idx` names it.
    pub proof fn lemma_col_idx(&self, k: u64)
        requires
            self.wf(),
            self.has_comp(k),
        ensures
            0 <= self.col_idx(k) < self.columns@.len(),
            self.columns@[self.col_idx(k)].comp == k,
            forall|i: int|
                0 <= i < self.columns@.len() && (#[trigger] self.columns@[i]).comp == k ==> i
                    == self.col_idx(k),
    {
        let ci = self.col_idx(k);
        assert(0 <= ci < self.columns@.len() && self.columns@[ci].comp == k);
        assert forall|i: int|
            0 <= i < self.columns@.len() && (#[trigger] self.columns@[i]).comp == k implies i
            == ci by {
            if i < ci {
                assert(self.columns@[i].comp < self.columns@[ci].comp);
            } else if ci < i {
                assert(self.columns@[ci].comp < self.columns@[i].comp);
            }
        }
    }

    /// Returns a new archetype with no rows and no columns.
    pub fn new_empty() -> (r: Self)
        ensures
            r.wf(),
            r.spec_len() == 0,
            r.columns@.len() == 0,
            forall|k: u64| !r.has_comp(k),
    {
        Archetype { entities: Vec::new(), columns: Vec::new() }
    }

    /// Number of rows.
    pub fn len(&self) -> (n: usize)
        ensures
            n == self.spec_len(),
    {
        self.entities.len()
    }

    /// True if the archetype has no rows.
    pub fn is_empty(&self) -> (r: bool)
        ensures
            r == (self.spec_len() == 0),
    {
        self.entities.len() == 0
    }

    /// The entity stored in row `row`.
    pub fn id_at(&self, row: usize) -> (r: EntityId)
        requires
            row < self.spec_len(),
        ensures
            r == self.entities@[row as int],
    {
        self.entities[row]
    }

    /// Returns the index of the column with key `k`, or `None` if the
    /// component set does not contain `k`.
    pub fn find_col(&self, k: u64) -> (r: Option<usize>)
        requires
            self.wf(),
        ensures
            r is Some <==> self.has_comp(k),
            r is Some ==> {
                &&& (r->0 as int) < self.columns@.len()
                &&& self.columns@[r->0 as int].comp == k
                &&& self.col_idx(k) == r->0 as int
            },
    {
        let n = self.columns.len();
        let mut i: usize = 0;
        while i < n
            invariant
                n == self.columns@.len(),
                i <= n,
                self.wf(),
                forall|j: int| 0 <= j < i ==> (#[trigger] self.columns@[j]).comp != k,
            decreases n - i,
        {
            if self.columns[i].comp == k {
                proof {
                    self.lemma_col_idx(k);
                }
                return Some(i);
            }
            i = i + 1;
        }
        None
    }

    /// True if the component set contains `k`.
    pub fn has_component(&self, k: u64) -> (r: bool)
        requires
            self.wf(),
        ensures
            r == self.has_comp(k),
    {
        self.find_col(k).is_some()
    }

    /// The component keys of this archetype, in column order.
    pub fn comp_keys(&self) -> (r: Vec<u64>)
        requires
            self.wf(),
        ensures
            r@.len() == self.columns@.len(),
            forall|i: int| 0 <= i < r@.len() ==> r@[i] == (#[trigger] self.columns@[i]).comp,
    {
        let n = self.columns.len();
        let mut r: Vec<u64> = Vec::new();
        let mut i: usize = 0;
        while i < n
            invariant
                n == self.columns@.len(),
                i <= n,
                r@.len() == i,
                forall|j: int| 0 <= j < i ==> r@[j] == (#[trigger] self.columns@[j]).comp,
            decreases n - i,
        {
            r.push(self.columns[i].comp);
            i = i + 1;
        }
        r
    }

    /// The value stored for column `ci` at row `row`.
    pub fn value_at(&self, ci: usize, row: usize) -> (r: &CompValue)
        requires
            self.wf(),
            (ci as int) < self.columns@.len(),
            (row as int) < self.spec_len(),
        ensures
            r == &self.columns@[ci as int].values@[row as int],
    {
        &self.columns[ci].values[row]
    }

    /// The row epoch of column `ci` at row `row`.
    pub fn entity_epoch_at(&self, ci: usize, row: usize) -> (r: EpochId)
        requires
            self.wf(),
            (ci as int) < self.columns@.len(),
            (row as int) < self.spec_len(),
        ensures
            r == self.columns@[ci as int].entity_epochs@[row as int],
    {
        self.columns[ci].entity_epochs[row]
    }

    /// The chunk epoch of column `ci` for chunk `chunk`.
    pub fn chunk_epoch_at(&self, ci: usize, chunk: usize) -> (r: EpochId)
        requires
            self.wf(),
            (ci as int) < self.columns@.len(),
            (chunk as int) < spec_n_chunks(self.spec_len()),
        ensures
            r == self.columns@[ci as int].chunk_epochs@[chunk as int],
    {
        self.columns[ci].chunk_epochs[chunk]
    }

    /// The column epoch of column `ci`.
    pub fn arch_epoch_at(&self, ci: usize) -> (r: EpochId)
        requires
            self.wf(),
            (ci as int) < self.columns@.len(),
        ensures
            r == self.columns@[ci as int].arch_epoch,
    {
        self.columns[ci].arch_epoch
    }

    /// Appends a row. `values` and `epochs` are given per column, in column
    /// order; the chunk and column epochs are raised as far as the new row's
    /// epochs demand, so change tracking stays sound.
    pub fn push_row(
        &mut self,
        id: EntityId,
        values: Vec<CompValue>,
        epochs: Vec<EpochId>,
        epoch: EpochId,
    ) -> (row: usize)
        requires
            old(self).wf(),
            old(self).spec_len() + 1 < u32::MAX as int,
            values@.len() == old(self).columns@.len(),
            epochs@.len() == old(self).columns@.len(),
            forall|i: int|
                0 <= i < values@.len() ==> comp_wf(
                    old(self).columns@[i].comp,
                    (#[trigger] values@[i])@,
                ),
            forall|i: int| 0 <= i < epochs@.len() ==> (#[trigger] epochs@[i]).value <= epoch.value,
        ensures
            final(self).wf(),
            row == old(self).spec_len(),
            final(self).spec_len() == old(self).spec_len() + 1,
            final(self).entities@ == old(self).entities@.push(id),
            final(self).columns@.len() == old(self).columns@.len(),
            forall|i: int|
                0 <= i < final(self).columns@.len() ==> {
                    &&& (#[trigger] final(self).columns@[i]).comp == old(self).columns@[i].comp
                    &&& final(self).columns@[i].values@ == old(self).columns@[i].values@.push(
                        values@[i],
                    )
                    &&& final(self).columns@[i].entity_epochs@ == old(
                        self,
                    ).columns@[i].entity_epochs@.push(epochs@[i])
                    &&& final(self).columns@[i].arch_epoch.value == if old(
                        self,
                    ).columns@[i].arch_epoch.value >= epochs@[i].value {
                        old(self).columns@[i].arch_epoch.value
                    } else {
                        epochs@[i].value
                    }
                },
            forall|k: u64| final(self).has_comp(k) == old(self).has_comp(k),
    {
        let row = self.entities.len();
        self.entities.push(id);
        let n_cols = self.columns.len();
        let ghost values0 = values@;
        let mut vals = values;
        let mut i: usize = 0;
        while i < n_cols
            invariant
                n_cols == self.columns@.len(),
                n_cols == old(self).columns@.len(),
                i <= n_cols,
                row == old(self).spec_len(),
                self.entities@ == old(self).entities@.push(id),
                old(self).wf(),
                old(self).spec_len() + 1 < u32::MAX as int,
                values0.len() == n_cols,
                epochs@.len() == n_cols,
                forall|j: int|
                    0 <= j < n_cols ==> comp_wf(
                        old(self).columns@[j].comp,
                        (#[trigger] values0[j])@,
                    ),
                forall|j: int|
                    0 <= j < n_cols ==> (#[trigger] epochs@[j]).value <= epoch.value,
                vals@ == values0.skip(i as int),
                forall|j: int| i <= j < n_cols ==> self.columns@[j] == old(self).columns@[j],
                forall|j: int|
                    0 <= j < i ==> {
                        &&& (#[trigger] self.columns@[j]).comp == old(self).columns@[j].comp
                        &&& self.columns@[j].values@ == old(self).columns@[j].values@.push(
                            values0[j],
                        )
                        &&& self.columns@[j].entity_epochs@ == old(
                            self,
                        ).columns@[j].entity_epochs@.push(epochs@[j])
                        &&& self.columns@[j].arch_epoch.value == if old(
                            self,
                        ).columns@[j].arch_epoch.value >= epochs@[j].value {
                            old(self).columns@[j].arch_epoch.value
                        } else {
                            epochs@[j].value
                        }
                        &&& col_wf(self.columns@[j], row + 1)
                    },
            decreases n_cols - i,
        {
            proof {
                assert(vals@[0] == values0[i as int]);
            }
            let v = vals.remove(0);
            let e = epochs[i];
            let ghost oldcol = self.columns@[i as int];
            proof {
                assert(oldcol == old(self).columns@[i as int]);
                assert(col_wf(old(self).columns@[i as int], row as int));
            }
            self.columns[i].values.push(v);
            self.columns[i].entity_epochs.push(e);
            proof {
                lemma_n_chunks_push(row as int);
            }
            if row % CHUNK_LEN == 0 {
                self.columns[i].chunk_epochs.push(e);
            } else {
                let c = chunk_idx(row);
                proof {
                    lemma_chunk_of_bound(row as int, row + 1);
                    assert(self.columns@[i as int].chunk_epochs@.len() == spec_n_chunks(
                        row as int,
                    ));
                }
                self.columns[i].chunk_epochs[c].update(e);
            }
            self.columns[i].arch_epoch.update(e);
            proof {
                let newcol = self.columns@[i as int];
                assert(col_wf(oldcol, row as int));
                assert forall|r: int| 0 <= r < row + 1 implies (#[trigger] newcol
                    .entity_epochs@[r]).value <= newcol.chunk_epochs@[spec_chunk_of(r)].value by {
                    lemma_chunk_of_bound(r, row + 1);
                    if r < row {
                        lemma_chunk_of_bound(r, row as int);
                    }
                }
                assert(col_wf(newcol, row + 1));
            }
            i = i + 1;
        }
        proof {
            lemma_has_comp_eq(old(self), self);
        }
        row
    }

    /// Removes row `row`, moving the last row into its place when it is not
    /// itself the last. Returns the entity that moved, so the directory can be
    /// told its new row. Chunk epochs of the destination are raised to cover
    /// the moved row's epochs.
    pub fn take_row(&mut self, row: usize) -> (out: (Vec<CompValue>, Vec<EpochId>, Option<
        EntityId,
    >))
        requires
            old(self).wf(),
            (row as int) < old(self).spec_len(),
        ensures
            final(self).wf(),
            out.0@.len() == old(self).columns@.len(),
            out.1@.len() == old(self).columns@.len(),
            forall|i: int|
                0 <= i < out.0@.len() ==> #[trigger] out.0@[i] == old(
                    self,
                ).columns@[i].values@[row as int],
            forall|i: int|
                0 <= i < out.1@.len() ==> #[trigger] out.1@[i] == old(
                    self,
                ).columns@[i].entity_epochs@[row as int],
            final(self).spec_len() == old(self).spec_len() - 1,
            final(self).columns@.len() == old(self).columns@.len(),
            final(self).entities@ == old(self).entities@.update(
                row as int,
                old(self).entities@.last(),
            ).drop_last(),
            forall|i: int|
                0 <= i < final(self).columns@.len() ==> {
                    &&& (#[trigger] final(self).columns@[i]).comp == old(self).columns@[i].comp
                    &&& final(self).columns@[i].values@ == old(self).columns@[i].values@.update(
                        row as int,
                        old(self).columns@[i].values@.last(),
                    ).drop_last()
                    &&& final(self).columns@[i].entity_epochs@ == old(
                        self,
                    ).columns@[i].entity_epochs@.update(
                        row as int,
                        old(self).columns@[i].entity_epochs@.last(),
                    ).drop_last()
                    &&& final(self).columns@[i].arch_epoch == old(self).columns@[i].arch_epoch
                },
            out.2 == if row + 1 == old(self).spec_len() {
                None::<EntityId>
            } else {
                Some(old(self).entities@.last())
            },
            forall|k: u64| final(self).has_comp(k) == old(self).has_comp(k),
    {
        let last = self.entities.len() - 1;
        let moved_id = self.entities[last];
        self.entities.swap_remove(row);
        let n_cols = self.columns.len();
        let new_len = last;
        let mut out_vals: Vec<CompValue> = Vec::new();
        let mut out_eps: Vec<EpochId> = Vec::new();
        let mut i: usize = 0;
        while i < n_cols
            invariant
                n_cols == self.columns@.len(),
                n_cols == old(self).columns@.len(),
                i <= n_cols,
                (row as int) < old(self).spec_len(),
                last == old(self).spec_len() - 1,
                new_len == last,
                old(self).wf(),
                self.entities@ == old(self).entities@.update(
                    row as int,
                    old(self).entities@.last(),
                ).drop_last(),
                forall|j: int| i <= j < n_cols ==> self.columns@[j] == old(self).columns@[j],
                out_vals@.len() == i,
                out_eps@.len() == i,
                forall|j: int|
                    0 <= j < i ==> #[trigger] out_vals@[j] == old(
                        self,
                    ).columns@[j].values@[row as int],
                forall|j: int|
                    0 <= j < i ==> #[trigger] out_eps@[j] == old(
                        self,
                    ).columns@[j].entity_epochs@[row as int],
                forall|j: int|
                    0 <= j < i ==> {
                        &&& (#[trigger] self.columns@[j]).comp == old(self).columns@[j].comp
                        &&& self.columns@[j].values@ == old(self).columns@[j].values@.update(
                            row as int,
                            old(self).columns@[j].values@.last(),
                        ).drop_last()
                        &&& self.columns@[j].entity_epochs@ == old(
                            self,
                        ).columns@[j].entity_epochs@.update(
                            row as int,
                            old(self).columns@[j].entity_epochs@.last(),
                        ).drop_last()
                        &&& self.columns@[j].arch_epoch == old(self).columns@[j].arch_epoch
                        &&& col_wf(self.columns@[j], new_len as int)
                    },
            decreases n_cols - i,
        {
            let ghost oldcol = self.columns@[i as int];
            proof {
                assert(oldcol == old(self).columns@[i as int]);
                assert(col_wf(old(self).columns@[i as int], old(self).spec_len()));
            }
            let v = self.columns[i].values.swap_remove(row);
            out_vals.push(v);
            let ep = self.columns[i].entity_epochs.swap_remove(row);
            out_eps.push(ep);
            proof {
                lemma_n_chunks_push(new_len as int);
            }
            if new_len % CHUNK_LEN == 0 {
                self.columns[i].chunk_epochs.pop();
            }
            if row < new_len {
                let c = chunk_idx(row);
                proof {
                    lemma_chunk_of_bound(row as int, new_len as int);
                    assert(self.columns@[i as int].chunk_epochs@.len() == spec_n_chunks(
                        new_len as int,
                    ));
                }
                let e = self.columns[i].entity_epochs[row];
                self.columns[i].chunk_epochs[c].update(e);
            }
            proof {
                let newcol = self.columns@[i as int];
                assert forall|r: int| 0 <= r < new_len implies (#[trigger] newcol
                    .entity_epochs@[r]).value <= newcol.chunk_epochs@[spec_chunk_of(r)].value by {
                    lemma_chunk_of_bound(r, new_len as int);
                    lemma_chunk_of_bound(r, old(self).spec_len());
                    if r != row {
                        assert(newcol.entity_epochs@[r] == oldcol.entity_epochs@[r]);
                    }
                }
                assert forall|k: int| 0 <= k < spec_n_chunks(new_len as int) implies (
                #[trigger] newcol.chunk_epochs@[k]).value <= newcol.arch_epoch.value by {
                    if row < new_len {
                        lemma_chunk_of_bound(row as int, new_len as int);
                        lemma_chunk_of_bound(old(self).spec_len() - 1, old(self).spec_len());
                    }
                }
                assert forall|r: int| 0 <= r < new_len implies comp_wf(
                    newcol.comp,
                    (#[trigger] newcol.values@[r])@,
                ) by {
                    if r != row {
                        assert(newcol.values@[r] == oldcol.values@[r]);
                    }
                }
                assert(col_wf(newcol, new_len as int));
            }
            i = i + 1;
        }
        proof {
            lemma_has_comp_eq(old(self), self);
        }
        if row == new_len {
            (out_vals, out_eps, None)
        } else {
            (out_vals, out_eps, Some(moved_id))
        }
    }

    /// Overwrites the value of column `ci` at row `row` and stamps all three
    /// epoch levels of that column with `epoch`.
    pub fn set_value(&mut self, ci: usize, row: usize, v: CompValue, epoch: EpochId)
        requires
            old(self).wf(),
            (ci as int) < old(self).columns@.len(),
            (row as int) < old(self).spec_len(),
            comp_wf(old(self).columns@[ci as int].comp, v@),
            old(self).columns@[ci as int].arch_epoch.value <= epoch.value,
        ensures
            final(self).wf(),
            final(self).spec_len() == old(self).spec_len(),
            final(self).entities@ == old(self).entities@,
            final(self).columns@.len() == old(self).columns@.len(),
            forall|j: int|
                0 <= j < final(self).columns@.len() && j != ci ==> final(self).columns@[j] == old(
                    self,
                ).columns@[j],
            final(self).columns@[ci as int].comp == old(self).columns@[ci as int].comp,
            final(self).columns@[ci as int].values@ == old(self).columns@[ci as int].values@.update(
                row as int,
                v,
            ),
            final(self).columns@[ci as int].entity_epochs@ == old(
                self,
            ).columns@[ci as int].entity_epochs@.update(row as int, epoch),
            final(self).columns@[ci as int].arch_epoch == epoch,
            forall|k: u64| final(self).has_comp(k) == old(self).has_comp(k),
    {
        let ghost oldcol = self.columns@[ci as int];
        let c = chunk_idx(row);
        proof {
            lemma_chunk_of_bound(row as int, self.spec_len());
        }
        self.columns[ci].values[row] = v;
        self.columns[ci].entity_epochs[row] = epoch;
        self.columns[ci].chunk_epochs[c].update(epoch);
        self.columns[ci].arch_epoch.update(epoch);
        proof {
            let newcol = self.columns@[ci as int];
            assert(col_wf(oldcol, self.spec_len()));
            assert(newcol.arch_epoch == epoch);
            assert forall|r: int| 0 <= r < self.spec_len() implies (#[trigger] newcol
                .entity_epochs@[r]).value <= newcol.chunk_epochs@[spec_chunk_of(r)].value by {
                lemma_chunk_of_bound(r, self.spec_len());
            }
            assert forall|r: int| 0 <= r < self.spec_len() implies comp_wf(
                newcol.comp,
                (#[trigger] newcol.values@[r])@,
            ) by {
                if r != row {
                    assert(newcol.values@[r] == oldcol.values@[r]);
                }
            }
            assert(col_wf(newcol, self.spec_len()));
            lemma_has_comp_eq(old(self), self);
        }
    }

    /// Raises the column epoch of column `ci` to `epoch`; used by write
    /// queries when they start fetching from this archetype.
    pub fn bump_arch_epoch(&mut self, ci: usize, epoch: EpochId)
        requires
            old(self).wf(),
            (ci as int) < old(self).columns@.len(),
            old(self).columns@[ci as int].arch_epoch.value <= epoch.value,
        ensures
            final(self).wf(),
            final(self).entities@ == old(self).entities@,
            final(self).columns@.len() == old(self).columns@.len(),
            forall|j: int|
                0 <= j < final(self).columns@.len() && j != ci ==> final(self).columns@[j] == old(
                    self,
                ).columns@[j],
            final(self).columns@[ci as int] == (Column {
                arch_epoch: epoch,
                ..old(self).columns@[ci as int]
            }),
            forall|k: u64| final(self).has_comp(k) == old(self).has_comp(k),
    {
        self.columns[ci].arch_epoch.bump_again(epoch);
        proof {
            assert(col_wf(old(self).columns@[ci as int], self.spec_len()));
            assert(col_wf(self.columns@[ci as int], self.spec_len()));
            lemma_has_comp_eq(old(self), self);
        }
    }

    /// Raises one chunk epoch of column `ci` to `epoch`; used by write
    /// queries when a chunk yields its first item.
    pub fn bump_chunk_epoch(&mut self, ci: usize, chunk: usize, epoch: EpochId)
        requires
            old(self).wf(),
            (ci as int) < old(self).columns@.len(),
            (chunk as int) < spec_n_chunks(old(self).spec_len()),
            old(self).columns@[ci as int].chunk_epochs@[chunk as int].value <= epoch.value,
            epoch.value <= old(self).columns@[ci as int].arch_epoch.value,
        ensures
            final(self).wf(),
            final(self).entities@ == old(self).entities@,
            final(self).columns@.len() == old(self).columns@.len(),
            forall|j: int|
                0 <= j < final(self).columns@.len() && j != ci ==> final(self).columns@[j] == old(
                    self,
                ).columns@[j],
            final(self).columns@[ci as int].comp == old(self).columns@[ci as int].comp,
            final(self).columns@[ci as int].values@ == old(self).columns@[ci as int].values@,
            final(self).columns@[ci as int].entity_epochs@ == old(
                self,
            ).columns@[ci as int].entity_epochs@,
            final(self).columns@[ci as int].arch_epoch == old(self).columns@[ci as int].arch_epoch,
            final(self).columns@[ci as int].chunk_epochs@ == old(
                self,
            ).columns@[ci as int].chunk_epochs@.update(chunk as int, epoch),
            forall|k: u64| final(self).has_comp(k) == old(self).has_comp(k),
    {
        proof {
            assert(col_wf(self.columns@[ci as int], self.spec_len()));
        }
        self.columns[ci].chunk_epochs[chunk].bump_again(epoch);
        proof {
            assert(col_wf(self.columns@[ci as int], self.spec_len()));
            lemma_has_comp_eq(old(self), self);
        }
    }

    /// Raises one row epoch of column `ci` to `epoch`; used by write queries
    /// when the row's item is produced.
    pub fn bump_entity_epoch(&mut self, ci: usize, row: usize, epoch: EpochId)
        requires
            old(self).wf(),
            (ci as int) < old(self).columns@.len(),
            (row as int) < old(self).spec_len(),
            old(self).columns@[ci as int].entity_epochs@[row as int].value <= epoch.value,
            epoch.value <= old(self).columns@[ci as int].chunk_epochs@[spec_chunk_of(
                row as int,
            )].value,
        ensures
            final(self).wf(),
            final(self).entities@ == old(self).entities@,
            final(self).columns@.len() == old(self).columns@.len(),
            forall|j: int|
                0 <= j < final(self).columns@.len() && j != ci ==> final(self).columns@[j] == old(
                    self,
                ).columns@[j],
            final(self).columns@[ci as int].comp == old(self).columns@[ci as int].comp,
            final(self).columns@[ci as int].values@ == old(self).columns@[ci as int].values@,
            final(self).columns@[ci as int].chunk_epochs@ == old(
                self,
            ).columns@[ci as int].chunk_epochs@,
            final(self).columns@[ci as int].arch_epoch == old(self).columns@[ci as int].arch_epoch,
            final(self).columns@[ci as int].entity_epochs@ == old(
                self,
            ).columns@[ci as int].entity_epochs@.update(row as int, epoch),
            forall|k: u64| final(self).has_comp(k) == old(self).has_comp(k),
    {
        proof {
            lemma_chunk_of_bound(row as int, self.spec_len());
            assert(col_wf(self.columns@[ci as int], self.spec_len()));
        }
        self.columns[ci].entity_epochs[row].bump_again(epoch);
        proof {
            let newcol = self.columns@[ci as int];
            let oldcol = old(self).columns@[ci as int];
            assert forall|r: int| 0 <= r < self.spec_len() implies (#[trigger] newcol
                .entity_epochs@[r]).value <= newcol.chunk_epochs@[spec_chunk_of(r)].value by {
                lemma_chunk_of_bound(r, self.spec_len());
                if r != row {
                    assert(newcol.entity_epochs@[r] == oldcol.entity_epochs@[r]);
                }
            }
            assert(col_wf(newcol, self.spec_len()));
            lemma_has_comp_eq(old(self), self);
        }
    }
}

} // verus!
