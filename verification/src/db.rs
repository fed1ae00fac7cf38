use vstd::prelude::*;

use crate::error::FotosError;

verus! {

/// Largest id the store will ever hand out; ids must stay representable
/// as the signed 64-bit integers that `FileB3SumRow` and `FileB3Sum` carry.
pub const MAX_ID: u64 = 0x7fff_ffff_ffff_ffff;

/// How many unfingerprinted files one fill batch may hold.
pub const FILL_BATCH_LIMIT: usize = 30;

/// A file record as handed to the store by the tree walker.
#[derive(Debug, Clone)]
pub struct FileEntry {
    pub id: Option<u64>,
    pub path: String,
    pub size: u64,
    pub created_at: u64,
    pub modified_at: u64,
}

/// A row as returned by the fingerprint and duplicate queries.
#[derive(Debug, Clone)]
pub struct FileB3SumRow {
    pub file_id: Option<i64>,
    pub b3sum: Option<String>,
    pub path: String,
    pub size: u64,
}

/// A computed fingerprint to be written back for one file.
#[derive(Debug, Clone)]
pub struct FileB3Sum {
    pub file_id: i64,
    pub b3sum: String,
}

/// A fingerprint together with the number of files carrying it.
#[derive(Debug, Clone)]
pub struct FileB3SumCount {
    pub count: i64,
    pub b3sum: String,
}

/// The mathematical value of one stored row.
pub ghost struct RowModel {
    pub id: u64,
    pub path: Seq<char>,
    pub size: u64,
    pub created_at: u64,
    pub modified_at: u64,
    pub b3sum: Option<Seq<char>>,
}

/// One stored row: a known file, keyed by its relative path.
pub struct Row {
    pub id: u64,
    pub path: String,
    pub size: u64,
    pub created_at: u64,
    pub modified_at: u64,
    pub b3sum: Option<String>,
}

impl View for Row {
    type V = RowModel;

    open spec fn view(&self) -> RowModel {
        RowModel {
            id: self.id,
            path: self.path@,
            size: self.size,
            created_at: self.created_at,
            modified_at: self.modified_at,
            b3sum: match self.b3sum {
                Some(s) => Some(s@),
                None => None,
            },
        }
    }
}

/// The metadata store: a table of known files, keyed by relative path.
///
/// The table lives in memory; the application shell loads and persists it.
/// Paths are unique, ids are unique and store-assigned, and a row's
/// fingerprint is the only field ever updated after insertion.
pub struct Database {
    pub rows: Vec<Row>,
    pub next_id: u64,
}

impl View for Database {
    type V = Seq<RowModel>;

    open spec fn view(&self) -> Seq<RowModel> {
        self.rows@.map_values(|r: Row| r@)
    }
}

/// Some row already carries the path `p`.
pub open spec fn has_path(rows: Seq<RowModel>, p: Seq<char>) -> bool {
    exists|i: int| 0 <= i < rows.len() && (#[trigger] rows[i]).path == p
}

/// Paths and ids are pairwise distinct.
pub open spec fn rows_distinct(rows: Seq<RowModel>) -> bool {
    forall|i: int, j: int|
        0 <= i < rows.len() && 0 <= j < rows.len() && i != j ==> (#[trigger] rows[i]).path != (
        #[trigger] rows[j]).path && rows[i].id != rows[j].id
}

/// Every id is below the next id to be assigned.
pub open spec fn rows_bounded(rows: Seq<RowModel>, next_id: u64) -> bool {
    forall|i: int| 0 <= i < rows.len() ==> (#[trigger] rows[i]).id < next_id
}

/// The row a freshly inserted entry becomes: no fingerprint yet.
pub open spec fn entry_model(f: FileEntry, id: u64) -> RowModel {
    RowModel {
        id: id,
        path: f.path@,
        size: f.size,
        created_at: f.created_at,
        modified_at: f.modified_at,
        b3sum: None,
    }
}

/// Inserting one entry: a no-op when the path is already known
/// (first insertion wins), a fresh row with the next id otherwise.
pub open spec fn add_one(rows: Seq<RowModel>, next_id: int, f: FileEntry) -> (Seq<RowModel>, int) {
    if has_path(rows, f.path@) {
        (rows, next_id)
    } else {
        (rows.push(entry_model(f, next_id as u64)), next_id + 1)
    }
}

/// Inserting a batch, left to right.
pub open spec fn add_all(rows: Seq<RowModel>, next_id: int, files: Seq<FileEntry>) -> (
    Seq<RowModel>,
    int,
)
    decreases files.len(),
{
    if files.len() == 0 {
        (rows, next_id)
    } else {
        let prev = add_all(rows, next_id, files.drop_last());
        add_one(prev.0, prev.1, files.last())
    }
}

impl Database {
    /// The store's invariant: unique paths, unique bounded ids.
    pub open spec fn inv(&self) -> bool {
        &&& rows_distinct(self@)
        &&& rows_bounded(self@, self.next_id)
        &&& self.next_id as int <= MAX_ID + 1
    }

    /// An empty store.
    pub fn new() -> (db: Database)
        ensures
            db.inv(),
            db@ == Seq::<RowModel>::empty(),
            db.next_id == 1u64,
    {
        let db = Database { rows: Vec::new(), next_id: 1 };
        proof {
            assert(db@ =~= Seq::<RowModel>::empty());
        }
        db
    }

    /// Whether this table satisfies the store invariant. A caller that
    /// builds a `Database` from foreign data — a loaded store file — can
    /// test it before handing the table to the library's operations,
    /// which all require it.
    pub fn check_inv(&self) -> (r: bool)
        ensures
            r == self.inv(),
    {
        let limit: u64 = MAX_ID + 1;
        if self.next_id > limit {
            return false;
        }
        let mut i: usize = 0;
        while i < self.rows.len()
            invariant
                i <= self.rows.len(),
                self.next_id as int <= MAX_ID + 1,
                forall|a: int| 0 <= a < i ==> (#[trigger] self@[a]).id < self.next_id,
                forall|a: int, b: int|
                    0 <= a < b < self@.len() && a < i ==> (#[trigger] self@[a]).path != (
                    #[trigger] self@[b]).path && self@[a].id != self@[b].id,
            decreases self.rows.len() - i,
        {
            if self.rows[i].id >= self.next_id {
                proof {
                    assert(!rows_bounded(self@, self.next_id));
                }
                return false;
            }
            let mut k: usize = i + 1;
            while k < self.rows.len()
                invariant
                    i < k <= self.rows.len(),
                    i < self.rows.len(),
                    forall|b: int|
                        i < b < k ==> (#[trigger] self@[b]).path != self@[i as int].path
                            && self@[b].id != self@[i as int].id,
                decreases self.rows.len() - k,
            {
                if self.rows[i].path == self.rows[k].path || self.rows[i].id == self.rows[k].id {
                    proof {
                        assert(self@[i as int].path == self@[k as int].path || self@[i as int].id
                            == self@[k as int].id);
                        assert(!rows_distinct(self@));
                    }
                    return false;
                }
                k += 1;
            }
            i += 1;
        }
        proof {
            assert forall|a: int, b: int|
                0 <= a < self@.len() && 0 <= b < self@.len() && a != b implies (
            #[trigger] self@[a]).path != (#[trigger] self@[b]).path && self@[a].id
                != self@[b].id by {
                if a < b {
                } else {
                    assert(self@[b].path != self@[a].path && self@[b].id != self@[a].id);
                }
            }
        }
        true
    }

    /// Whether some row carries the path `p`.
    pub fn contains_path(&self, p: &String) -> (r: bool)
        ensures
            r == has_path(self@, p@),
    {
        let mut j: usize = 0;
        while j < self.rows.len()
            invariant
                j <= self.rows.len(),
                forall|k: int| 0 <= k < j ==> (#[trigger] self@[k]).path != p@,
            decreases self.rows.len() - j,
        {
            if self.rows[j].path == *p {
                proof {
                    assert(self@[j as int].path == p@);
                }
                return true;
            }
            j += 1;
        }
        false
    }

    /// Batched insert: one entry per file, in order, skipping paths the
    /// store already knows. Fails only when the id space is exhausted,
    /// and then leaves the store unchanged, as a rolled-back transaction
    /// would.
    pub fn add_files(&mut self, files: &[FileEntry]) -> (r: crate::Result<()>)
        requires
            old(self).inv(),
        ensures
            final(self).inv(),
            add_all(old(self)@, old(self).next_id as int, files@).1 <= MAX_ID + 1 ==> {
                &&& r is Ok
                &&& final(self)@ == add_all(old(self)@, old(self).next_id as int, files@).0
                &&& final(self).next_id as int == add_all(
                    old(self)@,
                    old(self).next_id as int,
                    files@,
                ).1
            },
            add_all(old(self)@, old(self).next_id as int, files@).1 > MAX_ID + 1 ==> {
                &&& r == crate::Result::<()>::Err(FotosError::Sqlite)
                &&& final(self)@ == old(self)@
                &&& final(self).next_id == old(self).next_id
            },
    {
        let ghost rows0 = self@;
        let ghost next0 = self.next_id as int;
        let old_len = self.rows.len();
        let old_next = self.next_id;
        let mut i: usize = 0;
        while i < files.len()
            invariant
                rows0 == old(self)@,
                next0 == old(self).next_id as int,
                old_next == old(self).next_id,
                old(self).inv(),
                self.inv(),
                i <= files@.len(),
                old_len == rows0.len(),
                old_len <= self.rows.len(),
                self@.take(old_len as int) == rows0,
                self@ == add_all(rows0, next0, files@.take(i as int)).0,
                self.next_id as int == add_all(rows0, next0, files@.take(i as int)).1,
                next0 <= self.next_id as int,
            decreases files@.len() - i,
        {
            proof {
                assert(files@.take(i + 1).drop_last() =~= files@.take(i as int));
                assert(files@.take(i + 1).last() == files@[i as int]);
            }
            let known = self.contains_path(&files[i].path);
            if !known {
                if self.next_id > MAX_ID {
                    // id space exhausted: roll the batch back
                    proof {
                        lemma_add_all_next_monotone(rows0, next0, files@, i + 1);
                    }
                    proof {
                        assert(add_all(rows0, next0, files@.take(i + 1)).1 == add_all(
                            rows0,
                            next0,
                            files@.take(i as int),
                        ).1 + 1);
                        assert(add_all(rows0, next0, files@).1 > MAX_ID + 1);
                    }
                    while self.rows.len() > old_len
                        invariant
                            old_len == rows0.len(),
                            old_len <= self.rows.len(),
                            self@.take(old_len as int) == rows0,
                        decreases self.rows.len(),
                    {
                        let ghost prev = self@;
                        let _ = self.rows.pop();
                        proof {
                            assert(self@ =~= prev.drop_last());
                            assert(self@.take(old_len as int) =~= prev.take(old_len as int));
                        }
                    }
                    proof {
                        assert(self@ =~= rows0);
                    }
                    self.next_id = old_next;
                    return Err(FotosError::Sqlite);
                }
                let id = self.next_id;
                let entry = Row {
                    id,
                    path: files[i].path.clone(),
                    size: files[i].size,
                    created_at: files[i].created_at,
                    modified_at: files[i].modified_at,
                    b3sum: None,
                };
                let ghost before = self@;
                self.rows.push(entry);
                self.next_id = id + 1;
                proof {
                    assert(self@ =~= before.push(entry_model(files@[i as int], id)));
                    assert(self@.take(old_len as int) =~= before.take(old_len as int));
                    assert forall|a: int| 0 <= a < self@.len() implies (#[trigger] self@[a]).id
                        < self.next_id by {
                        if a < self@.len() - 1 {
                            assert(before[a].id < id);
                        }
                    }
                    assert forall|a: int, b: int|
                        0 <= a < self@.len() && 0 <= b < self@.len() && a != b implies (
                    #[trigger] self@[a]).path != (#[trigger] self@[b]).path && self@[a].id
                        != self@[b].id by {
                        if a < self@.len() - 1 && b < self@.len() - 1 {
                        } else if a == self@.len() - 1 {
                            assert(!has_path(before, files@[i as int].path@));
                            assert(before[b].path != self@[a].path);
                        } else {
                            assert(!has_path(before, files@[i as int].path@));
                            assert(before[a].path != self@[b].path);
                        }
                    }
                }
            }
            i += 1;
        }
        proof {
            assert(files@.take(files@.len() as int) =~= files@);
        }
        Ok(())
    }
}

/// The models of a sequence of rows.
pub open spec fn models_of(rows: Seq<Row>) -> Seq<RowModel> {
    rows.map_values(|r: Row| r@)
}

/// A row still lacking a fingerprint whose id is not excluded:
/// the fingerprint filler's work set.
pub open spec fn fillable(r: RowModel, excluded: Seq<u64>) -> bool {
    r.b3sum is None && !excluded.contains(r.id)
}

/// How many rows of `rows` are fillable.
pub open spec fn count_fillable(rows: Seq<RowModel>, excluded: Seq<u64>) -> nat
    decreases rows.len(),
{
    if rows.len() == 0 {
        0
    } else {
        count_fillable(rows.drop_last(), excluded) + if fillable(rows.last(), excluded) {
            1nat
        } else {
            0nat
        }
    }
}

/// A fill batch holds at most `FILL_BATCH_LIMIT` rows.
pub open spec fn fill_batch_len(n: nat) -> nat {
    if n < FILL_BATCH_LIMIT as nat {
        n
    } else {
        FILL_BATCH_LIMIT as nat
    }
}

/// The fingerprint that a batched update assigns to the row with `id`:
/// the last matching pair wins, as sequential updates would have it.
pub open spec fn sum_for(sums: Seq<FileB3Sum>, id: u64) -> Option<Seq<char>>
    decreases sums.len(),
{
    if sums.len() == 0 {
        None
    } else if sums.last().file_id as int == id as int {
        Some(sums.last().b3sum@)
    } else {
        sum_for(sums.drop_last(), id)
    }
}

/// A stored row after a batched fingerprint update.
pub open spec fn row_after_sums(r: RowModel, sums: Seq<FileB3Sum>) -> RowModel {
    match sum_for(sums, r.id) {
        Some(s) => RowModel { b3sum: Some(s), ..r },
        None => r,
    }
}

/// The rows that survive a batched delete, in their original order.
pub open spec fn remove_ids(rows: Seq<RowModel>, ids: Seq<u64>) -> Seq<RowModel>
    decreases rows.len(),
{
    if rows.len() == 0 {
        Seq::empty()
    } else if ids.contains(rows.last().id) {
        remove_ids(rows.drop_last(), ids)
    } else {
        remove_ids(rows.drop_last(), ids).push(rows.last())
    }
}

/// Whether `ids` holds `id`.
pub fn contains_id(ids: &[u64], id: u64) -> (r: bool)
    ensures
        r == ids@.contains(id),
{
    let mut j: usize = 0;
    while j < ids.len()
        invariant
            j <= ids@.len(),
            forall|k: int| 0 <= k < j ==> ids@[k] != id,
        decreases ids@.len() - j,
    {
        if ids[j] == id {
            return true;
        }
        j += 1;
    }
    false
}

/// The fingerprint a batched update assigns to `id`, scanning for the
/// last matching pair.
fn find_sum(sums: &[FileB3Sum], id: u64) -> (r: Option<String>)
    requires
        id <= MAX_ID,
    ensures
        match r {
            Some(s) => sum_for(sums@, id) == Some(s@),
            None => sum_for(sums@, id) is None,
        },
{
    let id_signed = id as i64;
    let mut j: usize = sums.len();
    proof {
        assert(sums@.take(j as int) =~= sums@);
    }
    while j > 0
        invariant
            j <= sums@.len(),
            id <= MAX_ID,
            id_signed as int == id as int,
            sum_for(sums@, id) == sum_for(sums@.take(j as int), id),
        decreases j,
    {
        proof {
            assert(sums@.take(j as int).drop_last() =~= sums@.take(j - 1));
            assert(sums@.take(j as int).last() == sums@[j - 1]);
        }
        if sums[j - 1].file_id == id_signed {
            return Some(sums[j - 1].b3sum.clone());
        }
        j -= 1;
    }
    proof {
        assert(sums@.take(0) =~= Seq::<FileB3Sum>::empty());
    }
    None
}

/// A copy of a stored row with the same model.
fn clone_row(r: &Row) -> (r2: Row)
    ensures
        r2@ == r@,
{
    Row {
        id: r.id,
        path: r.path.clone(),
        size: r.size,
        created_at: r.created_at,
        modified_at: r.modified_at,
        b3sum: match &r.b3sum {
            Some(s) => Some(s.clone()),
            None => None,
        },
    }
}

impl Database {
    /// All stored records, each carrying its id.
    pub fn get_files(&self) -> (r: Vec<FileEntry>)
        ensures
            r@.len() == self@.len(),
            forall|i: int|
                0 <= i < r@.len() ==> {
                    &&& (#[trigger] r@[i]).id == Some(self@[i].id)
                    &&& r@[i].path@ == self@[i].path
                    &&& r@[i].size == self@[i].size
                    &&& r@[i].created_at == self@[i].created_at
                    &&& r@[i].modified_at == self@[i].modified_at
                },
    {
        let mut r: Vec<FileEntry> = Vec::new();
        let mut j: usize = 0;
        while j < self.rows.len()
            invariant
                j <= self.rows.len(),
                r@.len() == j,
                forall|i: int|
                    0 <= i < j ==> {
                        &&& (#[trigger] r@[i]).id == Some(self@[i].id)
                        &&& r@[i].path@ == self@[i].path
                        &&& r@[i].size == self@[i].size
                        &&& r@[i].created_at == self@[i].created_at
                        &&& r@[i].modified_at == self@[i].modified_at
                    },
            decreases self.rows.len() - j,
        {
            let row = &self.rows[j];
            r.push(
                FileEntry {
                    id: Some(row.id),
                    path: row.path.clone(),
                    size: row.size,
                    created_at: row.created_at,
                    modified_at: row.modified_at,
                },
            );
            j += 1;
        }
        r
    }

    /// Up to one batch of rows that still lack a fingerprint and whose id
    /// is not in `excluded` (the ids already marked permanently
    /// unhashable). No order is promised.
    pub fn get_files_for_b3sum_excluding(&self, excluded: &[u64]) -> (r: Vec<FileB3SumRow>)
        requires
            self.inv(),
        ensures
            r@.len() == fill_batch_len(count_fillable(self@, excluded@)),
            forall|k: int|
                0 <= k < r@.len() ==> exists|j: int|
                    0 <= j < self@.len() && fillable(#[trigger] self@[j], excluded@) && (
                    #[trigger] r@[k]).file_id == Some(self@[j].id as i64) && r@[k].path@
                        == self@[j].path && r@[k].size == self@[j].size && r@[k].b3sum is None,
            forall|k1: int, k2: int|
                0 <= k1 < k2 < r@.len() ==> (#[trigger] r@[k1]).file_id != (
                #[trigger] r@[k2]).file_id,
    {
        let mut r: Vec<FileB3SumRow> = Vec::new();
        let mut j: usize = 0;
        while j < self.rows.len() && r.len() < FILL_BATCH_LIMIT
            invariant
                self.inv(),
                j <= self.rows.len(),
                r@.len() == fill_batch_len(count_fillable(self@.take(j as int), excluded@)),
                forall|k: int|
                    0 <= k < r@.len() ==> exists|j2: int|
                        0 <= j2 < j && fillable(#[trigger] self@[j2], excluded@) && (
                        #[trigger] r@[k]).file_id == Some(self@[j2].id as i64) && r@[k].path@
                            == self@[j2].path && r@[k].size == self@[j2].size
                            && r@[k].b3sum is None,
                forall|k1: int, k2: int|
                    0 <= k1 < k2 < r@.len() ==> (#[trigger] r@[k1]).file_id != (
                    #[trigger] r@[k2]).file_id,
            decreases self.rows.len() - j,
        {
            proof {
                assert(self@.take(j + 1).drop_last() =~= self@.take(j as int));
                assert(self@.take(j + 1).last() == self@[j as int]);
            }
            let row = &self.rows[j];
            if row.b3sum.is_none() && !contains_id(excluded, row.id) {
                proof {
                    assert(fillable(self@[j as int], excluded@));
                }
                r.push(
                    FileB3SumRow {
                        file_id: Some(row.id as i64),
                        b3sum: None,
                        path: row.path.clone(),
                        size: row.size,
                    },
                );
                proof {
                    assert forall|k: int| 0 <= k < r@.len() implies exists|j2: int|
                        0 <= j2 < j + 1 && fillable(#[trigger] self@[j2], excluded@) && (
                        #[trigger] r@[k]).file_id == Some(self@[j2].id as i64) && r@[k].path@
                            == self@[j2].path && r@[k].size == self@[j2].size
                            && r@[k].b3sum is None by {
                        if k == r@.len() - 1 {
                            assert(fillable(self@[j as int], excluded@) && r@[k].file_id == Some(
                                self@[j as int].id as i64,
                            ) && r@[k].path@ == self@[j as int].path && r@[k].size
                                == self@[j as int].size && r@[k].b3sum is None);
                        }
                    }
                    assert forall|k1: int, k2: int|
                        0 <= k1 < k2 < r@.len() implies (#[trigger] r@[k1]).file_id != (
                    #[trigger] r@[k2]).file_id by {
                        if k2 == r@.len() - 1 {
                            let j2 = choose|j2: int|
                                0 <= j2 < j && fillable(#[trigger] self@[j2], excluded@) && r@[k1].file_id
                                    == Some(self@[j2].id as i64) && r@[k1].path@ == self@[j2].path
                                    && r@[k1].size == self@[j2].size && r@[k1].b3sum is None;
                            assert(self@[j2].id != self@[j as int].id);
                            assert(self@[j2].id <= MAX_ID && self@[j as int].id <= MAX_ID);
                        }
                    }
                }
            }
            j += 1;
        }
        proof {
            if j == self.rows.len() {
                assert(self@.take(j as int) =~= self@);
            } else {
                lemma_count_fillable_take_le(self@, excluded@, j as int);
            }
        }
        r
    }

    /// Up to one batch of rows that still lack a fingerprint.
    pub fn get_files_for_b3sum(&self) -> (r: Vec<FileB3SumRow>)
        requires
            self.inv(),
        ensures
            r@.len() == fill_batch_len(count_fillable(self@, Seq::<u64>::empty())),
            forall|k: int|
                0 <= k < r@.len() ==> exists|j: int|
                    0 <= j < self@.len() && fillable(#[trigger] self@[j], Seq::<u64>::empty()) && (
                    #[trigger] r@[k]).file_id == Some(self@[j].id as i64) && r@[k].path@
                        == self@[j].path && r@[k].size == self@[j].size && r@[k].b3sum is None,
            forall|k1: int, k2: int|
                0 <= k1 < k2 < r@.len() ==> (#[trigger] r@[k1]).file_id != (
                #[trigger] r@[k2]).file_id,
    {
        let none: Vec<u64> = Vec::new();
        self.get_files_for_b3sum_excluding(none.as_slice())
    }

    /// Batched fingerprint update: the row with each pair's id receives
    /// the pair's fingerprint; every other field and every other row is
    /// untouched.
    pub fn set_b3sum(&mut self, sums: &[FileB3Sum]) -> (r: crate::Result<()>)
        requires
            old(self).inv(),
        ensures
            final(self).inv(),
            r is Ok,
            final(self)@.len() == old(self)@.len(),
            final(self).next_id == old(self).next_id,
            forall|i: int|
                0 <= i < old(self)@.len() ==> final(self)@[i] == row_after_sums(
                    #[trigger] old(self)@[i],
                    sums@,
                ),
    {
        let mut i: usize = 0;
        while i < self.rows.len()
            invariant
                old(self).inv(),
                self.next_id == old(self).next_id,
                self@.len() == old(self)@.len(),
                i <= self@.len(),
                forall|k: int|
                    0 <= k < i ==> self@[k] == row_after_sums(#[trigger] old(self)@[k], sums@),
                forall|k: int| i <= k < self@.len() ==> self@[k] == old(self)@[k],
            decreases self.rows.len() - i,
        {
            proof {
                assert(self@[i as int].id == old(self)@[i as int].id);
                assert(self@[i as int].id < old(self).next_id);
            }
            let found = find_sum(sums, self.rows[i].id);
            if let Some(s) = found {
                let row = &self.rows[i];
                let row2 = Row {
                    id: row.id,
                    path: row.path.clone(),
                    size: row.size,
                    created_at: row.created_at,
                    modified_at: row.modified_at,
                    b3sum: Some(s),
                };
                let ghost before = self@;
                self.rows.set(i, row2);
                proof {
                    assert(self@ =~= before.update(i as int, row2@));
                }
            }
            i += 1;
        }
        proof {
            assert forall|a: int| 0 <= a < self@.len() implies (#[trigger] self@[a]).id
                == old(self)@[a].id && self@[a].path == old(self)@[a].path by {
                assert(self@[a] == row_after_sums(old(self)@[a], sums@));
            }
            assert(rows_distinct(self@));
            assert(rows_bounded(self@, self.next_id));
        }
        Ok(())
    }

    /// Batched delete: exactly the rows whose id is listed disappear; the
    /// others keep their order and contents.
    pub fn delete_files(&mut self, file_ids: &[u64]) -> (r: crate::Result<()>)
        requires
            old(self).inv(),
        ensures
            final(self).inv(),
            r is Ok,
            final(self)@ == remove_ids(old(self)@, file_ids@),
            final(self).next_id == old(self).next_id,
    {
        let mut kept: Vec<Row> = Vec::new();
        let mut j: usize = 0;
        while j < self.rows.len()
            invariant
                j <= self.rows.len(),
                models_of(kept@) == remove_ids(self@.take(j as int), file_ids@),
            decreases self.rows.len() - j,
        {
            proof {
                assert(self@.take(j + 1).drop_last() =~= self@.take(j as int));
                assert(self@.take(j + 1).last() == self@[j as int]);
            }
            let row = &self.rows[j];
            if !contains_id(file_ids, row.id) {
                let ghost before = models_of(kept@);
                kept.push(clone_row(row));
                proof {
                    assert(models_of(kept@) =~= before.push(self@[j as int]));
                }
            }
            j += 1;
        }
        proof {
            assert(self@.take(self@.len() as int) =~= self@);
        }
        self.rows = kept;
        proof {
            lemma_remove_ids_subset(old(self)@, file_ids@);
            lemma_remove_ids_inv(old(self)@, file_ids@, old(self).next_id);
        }
        Ok(())
    }
}

/// A prefix never holds more fillable rows than the whole.
pub proof fn lemma_count_fillable_take_le(rows: Seq<RowModel>, excluded: Seq<u64>, j: int)
    requires
        0 <= j <= rows.len(),
    ensures
        count_fillable(rows.take(j), excluded) <= count_fillable(rows, excluded),
    decreases rows.len(),
{
    if j == rows.len() {
        assert(rows.take(j) =~= rows);
    } else {
        assert(rows.drop_last().take(j) =~= rows.take(j));
        lemma_count_fillable_take_le(rows.drop_last(), excluded, j);
    }
}

/// Every surviving row of a batched delete is one of the original rows.
pub proof fn lemma_remove_ids_subset(rows: Seq<RowModel>, ids: Seq<u64>)
    ensures
        remove_ids(rows, ids).len() <= rows.len(),
        forall|k: int|
            0 <= k < remove_ids(rows, ids).len() ==> exists|j: int|
                0 <= j < rows.len() && #[trigger] remove_ids(rows, ids)[k] == rows[j],
    decreases rows.len(),
{
    if rows.len() == 0 {
    } else {
        lemma_remove_ids_subset(rows.drop_last(), ids);
        assert forall|k: int| 0 <= k < remove_ids(rows, ids).len() implies exists|j: int|
            0 <= j < rows.len() && #[trigger] remove_ids(rows, ids)[k] == rows[j] by {
            if k < remove_ids(rows.drop_last(), ids).len() {
                assert(remove_ids(rows, ids)[k] == remove_ids(rows.drop_last(), ids)[k]);
                let j = choose|j: int|
                    0 <= j < rows.drop_last().len() && remove_ids(rows.drop_last(), ids)[k]
                        == rows.drop_last()[j];
                assert(remove_ids(rows, ids)[k] == rows[j]);
            } else {
                assert(remove_ids(rows, ids)[k] == rows[rows.len() - 1]);
            }
        }
    }
}

/// A batched delete keeps paths and ids distinct and bounded.
pub proof fn lemma_remove_ids_inv(rows: Seq<RowModel>, ids: Seq<u64>, next_id: u64)
    requires
        rows_distinct(rows),
        rows_bounded(rows, next_id),
    ensures
        rows_distinct(remove_ids(rows, ids)),
        rows_bounded(remove_ids(rows, ids), next_id),
    decreases rows.len(),
{
    if rows.len() == 0 {
    } else {
        assert(rows_distinct(rows.drop_last()));
        assert(rows_bounded(rows.drop_last(), next_id));
        lemma_remove_ids_inv(rows.drop_last(), ids, next_id);
        lemma_remove_ids_subset(rows.drop_last(), ids);
        if !ids.contains(rows.last().id) {
            let result = remove_ids(rows, ids);
            let prefix = remove_ids(rows.drop_last(), ids);
            assert forall|a: int, b: int|
                0 <= a < result.len() && 0 <= b < result.len() && a != b implies (
            #[trigger] result[a]).path != (#[trigger] result[b]).path && result[a].id
                != result[b].id by {
                if a < prefix.len() && b < prefix.len() {
                    assert(result[a] == prefix[a] && result[b] == prefix[b]);
                } else if a == prefix.len() {
                    let j = choose|j: int|
                        0 <= j < rows.drop_last().len() && prefix[b] == rows.drop_last()[j];
                    assert(result[b] == rows[j] && result[a] == rows[rows.len() - 1]);
                } else {
                    let j = choose|j: int|
                        0 <= j < rows.drop_last().len() && prefix[a] == rows.drop_last()[j];
                    assert(result[a] == rows[j] && result[b] == rows[rows.len() - 1]);
                }
            }
            assert forall|a: int| 0 <= a < result.len() implies (#[trigger] result[a]).id
                < next_id by {
                if a < prefix.len() {
                    assert(result[a] == prefix[a]);
                }
            }
        }
    }
}

/// The mathematical value of a row returned by the duplicate query.
pub ghost struct B3RowModel {
    pub file_id: Option<i64>,
    pub b3sum: Option<Seq<char>>,
    pub path: Seq<char>,
    pub size: u64,
}

impl View for FileB3SumRow {
    type V = B3RowModel;

    open spec fn view(&self) -> B3RowModel {
        B3RowModel {
            file_id: self.file_id,
            b3sum: match self.b3sum {
                Some(s) => Some(s@),
                None => None,
            },
            path: self.path@,
            size: self.size,
        }
    }
}

/// The models of a sequence of duplicate-query rows.
pub open spec fn b3models_of(rows: Seq<FileB3SumRow>) -> Seq<B3RowModel> {
    rows.map_values(|r: FileB3SumRow| r@)
}

/// How many rows carry the fingerprint `s`.
pub open spec fn count_with_sum(rows: Seq<RowModel>, s: Seq<char>) -> nat
    decreases rows.len(),
{
    if rows.len() == 0 {
        0
    } else {
        count_with_sum(rows.drop_last(), s) + if rows.last().b3sum == Some(s) {
            1nat
        } else {
            0nat
        }
    }
}

/// A row belongs to a duplicate cluster: its fingerprint is present and
/// shared by at least one other row.
pub open spec fn is_dup(rows: Seq<RowModel>, r: RowModel) -> bool {
    match r.b3sum {
        Some(s) => count_with_sum(rows, s) >= 2,
        None => false,
    }
}

/// What a stored row looks like in the duplicate report.
pub open spec fn dup_row_model(r: RowModel) -> B3RowModel {
    B3RowModel { file_id: Some(r.id as i64), b3sum: r.b3sum, path: r.path, size: r.size }
}

/// The duplicate-cluster members of `rows`, in store order, judged
/// against the whole table `full`.
pub open spec fn dup_models(rows: Seq<RowModel>, full: Seq<RowModel>) -> Seq<B3RowModel>
    decreases rows.len(),
{
    if rows.len() == 0 {
        Seq::empty()
    } else if is_dup(full, rows.last()) {
        dup_models(rows.drop_last(), full).push(dup_row_model(rows.last()))
    } else {
        dup_models(rows.drop_last(), full)
    }
}

/// How many times `x` occurs in `s`.
pub open spec fn count_elem(s: Seq<B3RowModel>, x: B3RowModel) -> nat
    decreases s.len(),
{
    if s.len() == 0 {
        0
    } else {
        count_elem(s.drop_last(), x) + if s.last() == x {
            1nat
        } else {
            0nat
        }
    }
}

/// Sizes never decrease along the sequence.
pub open spec fn sorted_by_size(s: Seq<B3RowModel>) -> bool {
    forall|a: int, b: int| 0 <= a < b < s.len() ==> (#[trigger] s[a]).size <= (#[trigger] s[b]).size
}

/// Inserting an element adds one occurrence of it and nothing else.
pub proof fn lemma_count_elem_insert(s: Seq<B3RowModel>, pos: int, x: B3RowModel, y: B3RowModel)
    requires
        0 <= pos <= s.len(),
    ensures
        count_elem(s.insert(pos, x), y) == count_elem(s, y) + if x == y {
            1nat
        } else {
            0nat
        },
    decreases s.len(),
{
    if pos == s.len() {
        assert(s.insert(pos, x) =~= s.push(x));
        assert(s.push(x).drop_last() =~= s);
    } else {
        assert(s.insert(pos, x).last() == s.last());
        assert(s.insert(pos, x).drop_last() =~= s.drop_last().insert(pos, x));
        lemma_count_elem_insert(s.drop_last(), pos, x, y);
    }
}

/// A copy of a duplicate-query row with the same model.
fn clone_b3row(r: &FileB3SumRow) -> (r2: FileB3SumRow)
    ensures
        r2@ == r@,
{
    FileB3SumRow {
        file_id: r.file_id,
        b3sum: match &r.b3sum {
            Some(s) => Some(s.clone()),
            None => None,
        },
        path: r.path.clone(),
        size: r.size,
    }
}

impl Database {
    /// How many stored rows carry the fingerprint `s`.
    pub fn count_rows_with(&self, s: &String) -> (c: usize)
        ensures
            c == count_with_sum(self@, s@),
    {
        let mut c: usize = 0;
        let mut j: usize = 0;
        while j < self.rows.len()
            invariant
                j <= self.rows.len(),
                c <= j,
                c == count_with_sum(self@.take(j as int), s@),
            decreases self.rows.len() - j,
        {
            proof {
                assert(self@.take(j + 1).drop_last() =~= self@.take(j as int));
                assert(self@.take(j + 1).last() == self@[j as int]);
            }
            let hit = match &self.rows[j].b3sum {
                Some(x) => *x == *s,
                None => false,
            };
            if hit {
                c += 1;
            }
            j += 1;
        }
        proof {
            assert(self@.take(self@.len() as int) =~= self@);
        }
        c
    }

    /// The members of every duplicate cluster — rows whose fingerprint is
    /// present and shared by more than one row — ordered by size
    /// ascending. Rows with a unique or missing fingerprint are excluded.
    pub fn get_duplicates(&self) -> (r: Vec<FileB3SumRow>)
        requires
            self.inv(),
        ensures
            forall|x: B3RowModel| count_elem(b3models_of(r@), x) == count_elem(
                dup_models(self@, self@),
                x,
            ),
            sorted_by_size(b3models_of(r@)),
    {
        // collect the cluster members in store order
        let mut dups: Vec<FileB3SumRow> = Vec::new();
        let mut j: usize = 0;
        while j < self.rows.len()
            invariant
                self.inv(),
                j <= self.rows.len(),
                b3models_of(dups@) == dup_models(self@.take(j as int), self@),
            decreases self.rows.len() - j,
        {
            proof {
                assert(self@.take(j + 1).drop_last() =~= self@.take(j as int));
                assert(self@.take(j + 1).last() == self@[j as int]);
            }
            let row = &self.rows[j];
            let mut member = false;
            match &row.b3sum {
                Some(s) => {
                    let c = self.count_rows_with(s);
                    if c >= 2 {
                        member = true;
                    }
                },
                None => {},
            }
            if member {
                let ghost before = b3models_of(dups@);
                dups.push(
                    FileB3SumRow {
                        file_id: Some(row.id as i64),
                        b3sum: match &row.b3sum {
                            Some(s) => Some(s.clone()),
                            None => None,
                        },
                        path: row.path.clone(),
                        size: row.size,
                    },
                );
                proof {
                    assert(b3models_of(dups@) =~= before.push(dup_row_model(self@[j as int])));
                }
            } else {
                proof {
                    assert(!is_dup(self@, self@[j as int]));
                }
            }
            j += 1;
        }
        proof {
            assert(self@.take(self@.len() as int) =~= self@);
        }
        // order by size ascending
        let mut sorted: Vec<FileB3SumRow> = Vec::new();
        let mut k: usize = 0;
        while k < dups.len()
            invariant
                k <= dups@.len(),
                sorted_by_size(b3models_of(sorted@)),
                forall|x: B3RowModel| count_elem(b3models_of(sorted@), x) == count_elem(
                    b3models_of(dups@.take(k as int)),
                    x,
                ),
            decreases dups@.len() - k,
        {
            proof {
                assert(dups@.take(k + 1).drop_last() =~= dups@.take(k as int));
                assert(dups@.take(k + 1).last() == dups@[k as int]);
                assert(b3models_of(dups@.take(k + 1)).drop_last() =~= b3models_of(
                    dups@.take(k as int),
                ));
                assert(b3models_of(dups@.take(k + 1)).last() == dups@[k as int]@);
            }
            let item = clone_b3row(&dups[k]);
            let mut pos: usize = 0;
            while pos < sorted.len() && sorted[pos].size <= item.size
                invariant
                    pos <= sorted@.len(),
                    forall|q: int| 0 <= q < pos ==> (#[trigger] b3models_of(sorted@)[q]).size
                        <= item@.size,
                decreases sorted@.len() - pos,
            {
                pos += 1;
            }
            let ghost before = b3models_of(sorted@);
            proof {
                lemma_count_elem_insert(before, pos as int, item@, item@);
            }
            sorted.insert(pos, item);
            proof {
                assert(b3models_of(sorted@) =~= before.insert(pos as int, dups@[k as int]@));
                assert forall|x: B3RowModel| count_elem(b3models_of(sorted@), x) == count_elem(
                    b3models_of(dups@.take(k + 1)),
                    x,
                ) by {
                    lemma_count_elem_insert(before, pos as int, dups@[k as int]@, x);
                }
                assert forall|a: int, b: int|
                    0 <= a < b < b3models_of(sorted@).len() implies (#[trigger] b3models_of(
                    sorted@,
                )[a]).size <= (#[trigger] b3models_of(sorted@)[b]).size by {
                    let cur = b3models_of(sorted@);
                    if b < pos {
                        assert(cur[a] == before[a] && cur[b] == before[b]);
                    } else if a < pos && b == pos {
                        assert(cur[a] == before[a]);
                    } else if a < pos {
                        assert(cur[a] == before[a] && cur[b] == before[b - 1]);
                    } else if a == pos {
                        assert(cur[b] == before[b - 1]);
                        assert(before[pos as int].size > cur[a].size);
                    } else {
                        assert(cur[a] == before[a - 1] && cur[b] == before[b - 1]);
                    }
                }
            }
            k += 1;
        }
        proof {
            assert(dups@.take(dups@.len() as int) =~= dups@);
        }
        sorted
    }
}

/// How many listed files carry the fingerprint `s`.
pub open spec fn count_sum_in(l: Seq<B3RowModel>, s: Seq<char>) -> nat
    decreases l.len(),
{
    if l.len() == 0 {
        0
    } else {
        count_sum_in(l.drop_last(), s) + if l.last().b3sum == Some(s) {
            1nat
        } else {
            0nat
        }
    }
}

/// The distinct fingerprints of a listing, in order of first appearance.
pub open spec fn sums_of(l: Seq<B3RowModel>) -> Seq<Seq<char>>
    decreases l.len(),
{
    if l.len() == 0 {
        Seq::empty()
    } else {
        let prev = sums_of(l.drop_last());
        match l.last().b3sum {
            Some(s) => if prev.contains(s) {
                prev
            } else {
                prev.push(s)
            },
            None => prev,
        }
    }
}

/// The fingerprints named by a sequence of count rows.
pub open spec fn count_models(v: Seq<FileB3SumCount>) -> Seq<Seq<char>> {
    v.map_values(|c: FileB3SumCount| c.b3sum@)
}

/// Whether some count row already names the fingerprint `s`.
fn counts_contain(counts: &Vec<FileB3SumCount>, s: &String) -> (r: bool)
    ensures
        r == count_models(counts@).contains(s@),
{
    let mut k: usize = 0;
    while k < counts.len()
        invariant
            k <= counts@.len(),
            forall|q: int| 0 <= q < k ==> (#[trigger] count_models(counts@)[q]) != s@,
        decreases counts@.len() - k,
    {
        if counts[k].b3sum == *s {
            proof {
                assert(count_models(counts@)[k as int] == s@);
            }
            return true;
        }
        k += 1;
    }
    proof {
        if count_models(counts@).contains(s@) {
            let w = choose|w: int|
                0 <= w < count_models(counts@).len() && count_models(counts@)[w] == s@;
            assert(count_models(counts@)[w] != s@);
        }
    }
    false
}

/// How many rows of the listing carry the fingerprint `s`.
fn count_rows_in(files: &Vec<FileB3SumRow>, s: &String) -> (c: usize)
    ensures
        c == count_sum_in(b3models_of(files@), s@),
        c <= files@.len(),
{
    let mut c: usize = 0;
    let mut j: usize = 0;
    while j < files.len()
        invariant
            j <= files@.len(),
            c <= j,
            c == count_sum_in(b3models_of(files@).take(j as int), s@),
        decreases files@.len() - j,
    {
        proof {
            assert(b3models_of(files@).take(j + 1).drop_last() =~= b3models_of(files@).take(
                j as int,
            ));
            assert(b3models_of(files@).take(j + 1).last() == files@[j as int]@);
        }
        let hit = match &files[j].b3sum {
            Some(x) => *x == *s,
            None => false,
        };
        if hit {
            c += 1;
        }
        j += 1;
    }
    proof {
        assert(b3models_of(files@).take(files@.len() as int) =~= b3models_of(files@));
    }
    c
}

/// One count row per distinct fingerprint of the duplicate listing, in
/// order of first appearance, each carrying how many listed files share
/// that fingerprint.
pub fn cluster_counts(files: &Vec<FileB3SumRow>) -> (r: Vec<FileB3SumCount>)
    requires
        files@.len() <= MAX_ID,
    ensures
        count_models(r@) == sums_of(b3models_of(files@)),
        forall|k: int|
            0 <= k < r@.len() ==> (#[trigger] r@[k]).count == count_sum_in(
                b3models_of(files@),
                r@[k].b3sum@,
            ),
{
    let ghost models = b3models_of(files@);
    let mut r: Vec<FileB3SumCount> = Vec::new();
    let mut i: usize = 0;
    while i < files.len()
        invariant
            i <= files@.len(),
            files@.len() <= MAX_ID,
            models == b3models_of(files@),
            count_models(r@) == sums_of(models.take(i as int)),
            forall|k: int|
                0 <= k < r@.len() ==> (#[trigger] r@[k]).count == count_sum_in(
                    models,
                    r@[k].b3sum@,
                ),
        decreases files@.len() - i,
    {
        proof {
            assert(models.take(i + 1).drop_last() =~= models.take(i as int));
            assert(models.take(i + 1).last() == files@[i as int]@);
        }
        match &files[i].b3sum {
            Some(s) => {
                let known = counts_contain(&r, s);
                if !known {
                    let c = count_rows_in(files, s);
                    proof {
                        assert(c <= files@.len() <= MAX_ID);
                    }
                    let ghost before = count_models(r@);
                    r.push(FileB3SumCount { count: c as i64, b3sum: s.clone() });
                    proof {
                        assert(count_models(r@) =~= before.push(s@));
                    }
                }
            },
            None => {},
        }
        i += 1;
    }
    proof {
        assert(models.take(models.len() as int) =~= models);
    }
    r
}

/// Adding files never removes a path.
pub proof fn lemma_add_all_keeps_path(
    rows: Seq<RowModel>,
    next_id: int,
    files: Seq<FileEntry>,
    p: Seq<char>,
)
    requires
        has_path(rows, p),
    ensures
        has_path(add_all(rows, next_id, files).0, p),
    decreases files.len(),
{
    if files.len() == 0 {
    } else {
        lemma_add_all_keeps_path(rows, next_id, files.drop_last(), p);
        let prev = add_all(rows, next_id, files.drop_last());
        let i = choose|i: int| 0 <= i < prev.0.len() && prev.0[i].path == p;
        assert(add_all(rows, next_id, files).0[i].path == p);
    }
}

/// After a batched insert, every path of the batch is in the store.
pub proof fn lemma_add_all_covers(rows: Seq<RowModel>, next_id: int, files: Seq<FileEntry>)
    ensures
        forall|i: int|
            0 <= i < files.len() ==> has_path(
                add_all(rows, next_id, files).0,
                (#[trigger] files[i]).path@,
            ),
    decreases files.len(),
{
    if files.len() == 0 {
    } else {
        lemma_add_all_covers(rows, next_id, files.drop_last());
        let prev = add_all(rows, next_id, files.drop_last());
        assert forall|i: int| 0 <= i < files.len() implies has_path(
            add_all(rows, next_id, files).0,
            (#[trigger] files[i]).path@,
        ) by {
            if i < files.len() - 1 {
                assert(files.drop_last()[i] == files[i]);
                lemma_add_all_keeps_path_one(prev.0, prev.1, files.last(), files[i].path@);
            } else {
                let result = add_one(prev.0, prev.1, files.last());
                if !has_path(prev.0, files.last().path@) {
                    assert(result.0[result.0.len() - 1].path == files[i].path@);
                } else {
                    lemma_add_all_keeps_path_one(prev.0, prev.1, files.last(), files[i].path@);
                }
            }
        }
    }
}

/// Inserting one entry never removes a path.
pub proof fn lemma_add_all_keeps_path_one(
    rows: Seq<RowModel>,
    next_id: int,
    f: FileEntry,
    p: Seq<char>,
)
    requires
        has_path(rows, p),
    ensures
        has_path(add_one(rows, next_id, f).0, p),
{
    let i = choose|i: int| 0 <= i < rows.len() && rows[i].path == p;
    assert(add_one(rows, next_id, f).0[i].path == p);
}

/// Inserting a batch whose paths are all present already changes nothing.
pub proof fn lemma_add_all_noop(rows: Seq<RowModel>, next_id: int, files: Seq<FileEntry>)
    requires
        forall|i: int| 0 <= i < files.len() ==> has_path(rows, (#[trigger] files[i]).path@),
    ensures
        add_all(rows, next_id, files) == (rows, next_id),
    decreases files.len(),
{
    if files.len() == 0 {
    } else {
        assert(forall|i: int|
            0 <= i < files.drop_last().len() ==> (#[trigger] files.drop_last()[i]) == files[i]);
        lemma_add_all_noop(rows, next_id, files.drop_last());
        assert(files.last() == files[files.len() - 1]);
    }
}

/// The store after a walk: one batched insert per directory, in commit
/// order.
pub open spec fn apply_batches(rows: Seq<RowModel>, next_id: int, batches: Seq<Seq<FileEntry>>) -> (
    Seq<RowModel>,
    int,
)
    decreases batches.len(),
{
    if batches.len() == 0 {
        (rows, next_id)
    } else {
        let prev = apply_batches(rows, next_id, batches.drop_last());
        add_all(prev.0, prev.1, batches.last())
    }
}

/// After a walk, every path of every committed batch is in the store.
proof fn lemma_apply_batches_covers(rows: Seq<RowModel>, next_id: int, batches: Seq<Seq<FileEntry>>)
    ensures
        forall|bi: int, fi: int|
            0 <= bi < batches.len() && 0 <= fi < batches[bi].len() ==> has_path(
                apply_batches(rows, next_id, batches).0,
                (#[trigger] batches[bi][fi]).path@,
            ),
    decreases batches.len(),
{
    if batches.len() > 0 {
        lemma_apply_batches_covers(rows, next_id, batches.drop_last());
        let prev = apply_batches(rows, next_id, batches.drop_last());
        lemma_add_all_covers(prev.0, prev.1, batches.last());
        assert forall|bi: int, fi: int|
            0 <= bi < batches.len() && 0 <= fi < batches[bi].len() implies has_path(
            apply_batches(rows, next_id, batches).0,
            (#[trigger] batches[bi][fi]).path@,
        ) by {
            if bi < batches.len() - 1 {
                assert(batches.drop_last()[bi][fi] == batches[bi][fi]);
                assert(has_path(prev.0, batches[bi][fi].path@));
                lemma_add_all_keeps_path(prev.0, prev.1, batches.last(), batches[bi][fi].path@);
            } else {
                assert(batches.last()[fi] == batches[bi][fi]);
            }
        }
    }
}

/// A walk whose every path is already in the store changes nothing.
proof fn lemma_apply_batches_noop(rows: Seq<RowModel>, next_id: int, batches: Seq<Seq<FileEntry>>)
    requires
        forall|bi: int, fi: int|
            0 <= bi < batches.len() && 0 <= fi < batches[bi].len() ==> has_path(
                rows,
                (#[trigger] batches[bi][fi]).path@,
            ),
    ensures
        apply_batches(rows, next_id, batches) == (rows, next_id),
    decreases batches.len(),
{
    if batches.len() > 0 {
        assert forall|bi: int, fi: int|
            0 <= bi < batches.drop_last().len() && 0 <= fi < batches.drop_last()[bi].len() implies has_path(
            rows,
            (#[trigger] batches.drop_last()[bi][fi]).path@,
        ) by {
            assert(batches.drop_last()[bi][fi] == batches[bi][fi]);
        }
        lemma_apply_batches_noop(rows, next_id, batches.drop_last());
        assert forall|fi: int| 0 <= fi < batches.last().len() implies has_path(
            rows,
            (#[trigger] batches.last()[fi]).path@,
        ) by {
            assert(batches[batches.len() - 1][fi] == batches.last()[fi]);
        }
        lemma_add_all_noop(rows, next_id, batches.last());
    }
}

/// Walking an unchanged tree twice is idempotent: replaying the same
/// sequence of directory batches over the store a walk produced leaves
/// its row count and contents exactly as the first walk left them.
pub proof fn lemma_walk_idempotent(rows: Seq<RowModel>, next_id: int, batches: Seq<Seq<FileEntry>>)
    ensures
        apply_batches(
            apply_batches(rows, next_id, batches).0,
            apply_batches(rows, next_id, batches).1,
            batches,
        ) == apply_batches(rows, next_id, batches),
{
    let r1 = apply_batches(rows, next_id, batches);
    lemma_apply_batches_covers(rows, next_id, batches);
    lemma_apply_batches_noop(r1.0, r1.1, batches);
}

/// The next id after a batch never shrinks as the batch grows.
pub proof fn lemma_add_all_next_monotone(
    rows: Seq<RowModel>,
    next_id: int,
    files: Seq<FileEntry>,
    k: int,
)
    requires
        0 <= k <= files.len(),
    ensures
        add_all(rows, next_id, files).1 >= add_all(rows, next_id, files.take(k)).1,
        add_all(rows, next_id, files.take(k)).1 >= next_id,
    decreases files.len(),
{
    if files.len() == 0 {
        assert(files.take(k) =~= files);
    } else if k == files.len() {
        assert(files.take(k) =~= files);
        lemma_add_all_next_monotone(rows, next_id, files.drop_last(), files.len() - 1);
        assert(files.drop_last().take(files.len() - 1) =~= files.drop_last());
    } else {
        assert(files.drop_last().take(k) =~= files.take(k));
        lemma_add_all_next_monotone(rows, next_id, files.drop_last(), k);
    }
}

} // verus!
