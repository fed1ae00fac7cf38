use vstd::prelude::*;

use crate::db::{
    b3models_of, count_elem, count_fillable, dup_models, fillable, remove_ids, rows_distinct,
    sorted_by_size, sum_for, B3RowModel, Database, FileB3Sum, FileB3SumRow, RowModel, MAX_ID,
};

verus! {

/// `count_fillable` never grows when rows gain fingerprints or ids join
/// the exclusion list.
pub proof fn lemma_count_fillable_le(
    r1: Seq<RowModel>,
    r2: Seq<RowModel>,
    e1: Seq<u64>,
    e2: Seq<u64>,
)
    requires
        r1.len() == r2.len(),
        forall|i: int|
            0 <= i < r1.len() ==> (fillable(#[trigger] r2[i], e2) ==> fillable(
                #[trigger] r1[i],
                e1,
            )),
    ensures
        count_fillable(r2, e2) <= count_fillable(r1, e1),
    decreases r1.len(),
{
    if r1.len() > 0 {
        assert(forall|i: int|
            0 <= i < r1.len() - 1 ==> #[trigger] r1.drop_last()[i] == r1[i]
                && #[trigger] r2.drop_last()[i] == r2[i]);
        lemma_count_fillable_le(r1.drop_last(), r2.drop_last(), e1, e2);
    }
}

/// It strictly shrinks when some fillable row stops being fillable.
pub proof fn lemma_count_fillable_lt(
    r1: Seq<RowModel>,
    r2: Seq<RowModel>,
    e1: Seq<u64>,
    e2: Seq<u64>,
    w: int,
)
    requires
        r1.len() == r2.len(),
        forall|i: int|
            0 <= i < r1.len() ==> (fillable(#[trigger] r2[i], e2) ==> fillable(
                #[trigger] r1[i],
                e1,
            )),
        0 <= w < r1.len(),
        fillable(r1[w], e1),
        !fillable(r2[w], e2),
    ensures
        count_fillable(r2, e2) < count_fillable(r1, e1),
    decreases r1.len(),
{
    assert(forall|i: int|
        0 <= i < r1.len() - 1 ==> #[trigger] r1.drop_last()[i] == r1[i] && #[trigger] r2.drop_last(
        )[i] == r2[i]);
    if w == r1.len() - 1 {
        lemma_count_fillable_le(r1.drop_last(), r2.drop_last(), e1, e2);
    } else {
        lemma_count_fillable_lt(r1.drop_last(), r2.drop_last(), e1, e2, w);
    }
}

/// With no fillable rows counted, none exists.
pub proof fn lemma_count_fillable_zero(rows: Seq<RowModel>, excluded: Seq<u64>)
    requires
        count_fillable(rows, excluded) == 0,
    ensures
        forall|i: int| 0 <= i < rows.len() ==> !fillable(#[trigger] rows[i], excluded),
    decreases rows.len(),
{
    if rows.len() > 0 {
        lemma_count_fillable_zero(rows.drop_last(), excluded);
        assert forall|i: int| 0 <= i < rows.len() implies !fillable(#[trigger] rows[i], excluded) by {
            if i < rows.len() - 1 {
                assert(!fillable(rows.drop_last()[i], excluded));
                assert(rows.drop_last()[i] == rows[i]);
            } else {
                assert(!fillable(rows.last(), excluded));
            }
        }
    }
}

/// A batched update holds a fingerprint for `id` exactly when some pair
/// names that id.
pub proof fn lemma_sum_for_some(sums: Seq<FileB3Sum>, id: u64)
    ensures
        sum_for(sums, id) is Some <==> exists|k: int|
            0 <= k < sums.len() && (#[trigger] sums[k]).file_id as int == id as int,
    decreases sums.len(),
{
    if sums.len() > 0 {
        lemma_sum_for_some(sums.drop_last(), id);
        if sum_for(sums, id) is Some {
            if sums.last().file_id as int == id as int {
                assert(sums[sums.len() - 1].file_id as int == id as int);
            } else {
                let k = choose|k: int|
                    0 <= k < sums.drop_last().len() && (#[trigger] sums.drop_last()[k]).file_id
                        as int == id as int;
                assert(sums[k].file_id as int == id as int);
            }
        }
        if exists|k: int| 0 <= k < sums.len() && (#[trigger] sums[k]).file_id as int == id as int {
            let k = choose|k: int|
                0 <= k < sums.len() && (#[trigger] sums[k]).file_id as int == id as int;
            if k < sums.len() - 1 {
                assert(sums.drop_last()[k].file_id as int == id as int);
            }
        }
    }
}

/// The ids of a fill batch, one per row.
fn ids_of(batch: &Vec<FileB3SumRow>) -> (ids: Vec<u64>)
    requires
        forall|k: int|
            0 <= k < batch@.len() ==> ((#[trigger] batch@[k]).file_id matches Some(x) && x >= 0),
    ensures
        ids@.len() == batch@.len(),
        forall|k: int|
            0 <= k < batch@.len() ==> (#[trigger] batch@[k]).file_id == Some(ids@[k] as i64)
                && ids@[k] <= MAX_ID,
{
    let mut ids: Vec<u64> = Vec::new();
    let mut q: usize = 0;
    while q < batch.len()
        invariant
            q <= batch@.len(),
            ids@.len() == q,
            forall|k: int|
                0 <= k < batch@.len() ==> ((#[trigger] batch@[k]).file_id matches Some(x) && x >= 0),
            forall|k: int|
                0 <= k < q ==> (#[trigger] batch@[k]).file_id == Some(ids@[k] as i64) && ids@[k]
                    <= MAX_ID,
        decreases batch@.len() - q,
    {
        let v = batch[q].file_id.unwrap();
        ids.push(v as u64);
        q += 1;
    }
    ids
}

/// Whether some pair of the batched update names `id`.
fn contains_sum_id(sums: &Vec<FileB3Sum>, id: u64) -> (r: bool)
    requires
        id <= MAX_ID,
    ensures
        r == exists|k: int|
            0 <= k < sums@.len() && (#[trigger] sums@[k]).file_id as int == id as int,
{
    let signed = id as i64;
    let mut q: usize = 0;
    while q < sums.len()
        invariant
            q <= sums@.len(),
            signed as int == id as int,
            forall|k: int| 0 <= k < q ==> (#[trigger] sums@[k]).file_id as int != id as int,
        decreases sums@.len() - q,
    {
        if sums[q].file_id == signed {
            return true;
        }
        q += 1;
    }
    false
}

/// What the filling loop asks of its hashing callback: it accepts any
/// batch, and every pair it returns names a member of that batch. Nothing
/// is asked of the fingerprints themselves: whatever comes back is
/// recorded, and the loop's guarantees hold for every outcome.
pub open spec fn hasher_ok<F: Fn(Vec<FileB3SumRow>) -> Vec<FileB3Sum>>(hasher: F) -> bool {
    &&& forall|b: Vec<FileB3SumRow>| #[trigger] call_requires(hasher, (b,))
    &&& forall|b: Vec<FileB3SumRow>, out: Vec<FileB3Sum>|
        #[trigger] call_ensures(hasher, (b,), out) ==> forall|k: int|
            #![trigger out@[k]]
            0 <= k < out@.len() ==> exists|m: int|
                0 <= m < b@.len() && (#[trigger] b@[m]).file_id == Some(out@[k].file_id)
}

/// Some call of the hasher was handed a batch naming the id `x` and
/// returned no pair for it: the only way an id is ever marked
/// permanently unhashable.
pub open spec fn hasher_omitted<F: Fn(Vec<FileB3SumRow>) -> Vec<FileB3Sum>>(
    hasher: F,
    x: u64,
) -> bool {
    exists|b: Vec<FileB3SumRow>, out: Vec<FileB3Sum>|
        {
            &&& #[trigger] call_ensures(hasher, (b,), out)
            &&& exists|m: int| 0 <= m < b@.len() && (#[trigger] b@[m]).file_id == Some(x as i64)
            &&& forall|k: int|
                0 <= k < out@.len() ==> (#[trigger] out@[k]).file_id as int != x as int
        }
}

/// Some call of the hasher returned exactly this fingerprint for the
/// id: the only way a row is ever fingerprinted by the filling loop.
pub open spec fn hasher_returned<F: Fn(Vec<FileB3SumRow>) -> Vec<FileB3Sum>>(
    hasher: F,
    id: u64,
    b3: Option<Seq<char>>,
) -> bool {
    exists|b: Vec<FileB3SumRow>, out: Vec<FileB3Sum>|
        {
            &&& #[trigger] call_ensures(hasher, (b,), out)
            &&& exists|k: int|
                0 <= k < out@.len() && (#[trigger] out@[k]).file_id as int == id as int && b3
                    == Some(out@[k].b3sum@)
        }
}

/// A batched update that holds a fingerprint for `id` holds it in some
/// pair naming that id.
proof fn lemma_sum_for_witness(sums: Seq<FileB3Sum>, id: u64)
    requires
        sum_for(sums, id) is Some,
    ensures
        exists|k: int|
            0 <= k < sums.len() && (#[trigger] sums[k]).file_id as int == id as int && sum_for(
                sums,
                id,
            ) == Some(sums[k].b3sum@),
    decreases sums.len(),
{
    assert(sums.len() > 0);
    if sums.last().file_id as int == id as int {
        assert(sums[sums.len() - 1].file_id as int == id as int && sum_for(sums, id) == Some(
            sums[sums.len() - 1].b3sum@,
        ));
    } else {
        lemma_sum_for_witness(sums.drop_last(), id);
        let k = choose|k: int|
            0 <= k < sums.drop_last().len() && (#[trigger] sums.drop_last()[k]).file_id as int
                == id as int && sum_for(sums.drop_last(), id) == Some(sums.drop_last()[k].b3sum@);
        assert(sums[k].file_id as int == id as int && sum_for(sums, id) == Some(sums[k].b3sum@));
    }
}

/// One round of the fingerprint filler: ask the store for one batch of
/// rows lacking a fingerprint (the ids in `failed` excluded), hand the
/// batch to `hasher`, write whatever came back in one batched update,
/// and mark every batch member the hasher omitted as permanently
/// unhashable. Returns true, changing nothing, when no such row is left.
///
/// Every fingerprint written came from a hasher output for that row's
/// id, and every id newly marked was handed to the hasher and omitted
/// from its answer. The shell may persist the store between rounds: one
/// round is one batch, so its progress is durable on its own.
pub fn fill_step<F: Fn(Vec<FileB3SumRow>) -> Vec<FileB3Sum>>(
    db: &mut Database,
    hasher: &F,
    failed: &mut Vec<u64>,
) -> (done: bool)
    requires
        old(db).inv(),
        hasher_ok(*hasher),
    ensures
        final(db).inv(),
        final(db)@.len() == old(db)@.len(),
        final(db).next_id == old(db).next_id,
        forall|i: int|
            0 <= i < old(db)@.len() ==> {
                &&& (#[trigger] final(db)@[i]).id == old(db)@[i].id
                &&& final(db)@[i].path == old(db)@[i].path
                &&& final(db)@[i].size == old(db)@[i].size
                &&& final(db)@[i].created_at == old(db)@[i].created_at
                &&& final(db)@[i].modified_at == old(db)@[i].modified_at
            },
        forall|i: int|
            0 <= i < old(db)@.len() && (#[trigger] old(db)@[i]).b3sum is Some ==> final(db)@[i]
                == old(db)@[i],
        forall|i: int|
            0 <= i < old(db)@.len() && (#[trigger] old(db)@[i]).b3sum is None
                && final(db)@[i].b3sum is Some ==> hasher_returned(
                *hasher,
                old(db)@[i].id,
                final(db)@[i].b3sum,
            ),
        forall|x: u64| old(failed)@.contains(x) ==> #[trigger] final(failed)@.contains(x),
        forall|x: u64|
            #[trigger] final(failed)@.contains(x) && !old(failed)@.contains(x) ==> hasher_omitted(
                *hasher,
                x,
            ),
        done == (count_fillable(old(db)@, old(failed)@) == 0),
        done ==> final(db)@ == old(db)@ && final(failed)@ == old(failed)@,
        !done ==> count_fillable(final(db)@, final(failed)@) < count_fillable(
            old(db)@,
            old(failed)@,
        ),
{
    let batch = db.get_files_for_b3sum_excluding(failed.as_slice());
    if batch.len() == 0 {
        return true;
    }
    let ghost db_entry = db@;
    let ghost failed_entry = failed@;
    let ghost batchv = batch@;
    proof {
        assert forall|k: int| 0 <= k < batch@.len() implies (#[trigger] batch@[k]).file_id
            matches Some(x) && x >= 0 by {
            let j = choose|j: int|
                0 <= j < db@.len() && fillable(#[trigger] db@[j], failed@) && batch@[k].file_id
                    == Some(db@[j].id as i64) && batch@[k].b3sum is None;
            assert(db@[j].id <= MAX_ID);
        }
    }
    let ids = ids_of(&batch);
    proof {
        assert forall|k: int| 0 <= k < ids@.len() implies #[trigger] ids@[k] <= MAX_ID by {
            assert(batchv[k].file_id == Some(ids@[k] as i64));
        }
    }
    let ghost batchg = batch;
    let sums = hasher(batch);
    let _ = db.set_b3sum(sums.as_slice());
    proof {
        assert forall|i: int|
            0 <= i < db@.len() implies {
                &&& (#[trigger] db@[i]).id == db_entry[i].id
                &&& db@[i].path == db_entry[i].path
                &&& db@[i].size == db_entry[i].size
                &&& db@[i].created_at == db_entry[i].created_at
                &&& db@[i].modified_at == db_entry[i].modified_at
            } by {
            assert(db@[i] == crate::db::row_after_sums(db_entry[i], sums@));
        }
        // a pair's id always names a row that was fillable at entry
        assert forall|i: int|
            0 <= i < db@.len() && sum_for(sums@, db_entry[i].id) is Some implies fillable(
            db_entry[i],
            failed_entry,
        ) by {
            lemma_sum_for_some(sums@, db_entry[i].id);
            let k = choose|k: int|
                0 <= k < sums@.len() && (#[trigger] sums@[k]).file_id as int == db_entry[i].id
                    as int;
            let m = choose|m: int|
                0 <= m < batchg@.len() && (#[trigger] batchg@[m]).file_id == Some(
                    sums@[k].file_id,
                );
            let j = choose|j: int|
                0 <= j < db_entry.len() && fillable(#[trigger] db_entry[j], failed_entry)
                    && batchv[m].file_id == Some(db_entry[j].id as i64) && batchv[m].b3sum
                    is None;
            assert(db_entry[j].id as int == db_entry[i].id as int);
            if i != j {
                assert(db_entry[i].id != db_entry[j].id);
            }
        }
        // rows that had a fingerprint at entry are untouched
        assert forall|i: int|
            0 <= i < db@.len() && (#[trigger] db_entry[i]).b3sum is Some implies db@[i]
                == db_entry[i] by {
            if sum_for(sums@, db_entry[i].id) is Some {
                assert(fillable(db_entry[i], failed_entry));
            }
            assert(db@[i] == crate::db::row_after_sums(db_entry[i], sums@));
        }
        // every fingerprint written came from the hasher's answer
        assert forall|i: int|
            0 <= i < db@.len() && (#[trigger] db_entry[i]).b3sum is None && db@[i].b3sum
                is Some implies hasher_returned(*hasher, db_entry[i].id, db@[i].b3sum) by {
            assert(db@[i] == crate::db::row_after_sums(db_entry[i], sums@));
            assert(sum_for(sums@, db_entry[i].id) is Some);
            lemma_sum_for_witness(sums@, db_entry[i].id);
            let k = choose|k: int|
                0 <= k < sums@.len() && (#[trigger] sums@[k]).file_id as int == db_entry[i].id
                    as int && sum_for(sums@, db_entry[i].id) == Some(sums@[k].b3sum@);
            assert(call_ensures(*hasher, (batchg,), sums));
            assert(db@[i].b3sum == Some(sums@[k].b3sum@));
        }
    }
    let mut q: usize = 0;
    while q < ids.len()
        invariant
            q <= ids@.len(),
            batchg@ == batchv,
            call_ensures(*hasher, (batchg,), sums),
            forall|x: u64| failed_entry.contains(x) ==> #[trigger] failed@.contains(x),
            forall|k: int|
                0 <= k < q && sum_for(sums@, ids@[k]) is None ==> failed@.contains(
                    #[trigger] ids@[k],
                ),
            forall|k: int| 0 <= k < ids@.len() ==> #[trigger] ids@[k] <= MAX_ID,
            ids@.len() == batchv.len(),
            forall|k: int|
                0 <= k < batchv.len() ==> (#[trigger] batchv[k]).file_id == Some(
                    ids@[k] as i64,
                ),
            forall|x: u64|
                #[trigger] failed@.contains(x) && !failed_entry.contains(x) ==> hasher_omitted(
                    *hasher,
                    x,
                ),
        decreases ids@.len() - q,
    {
        let hit = contains_sum_id(&sums, ids[q]);
        if !hit {
            let ghost before = failed@;
            failed.push(ids[q]);
            proof {
                assert forall|x: u64| before.contains(x) implies #[trigger] failed@.contains(
                    x,
                ) by {
                    let w = choose|w: int| 0 <= w < before.len() && before[w] == x;
                    assert(failed@[w] == x);
                }
                assert(failed@[failed@.len() - 1] == ids@[q as int]);
                lemma_sum_for_some(sums@, ids@[q as int]);
                assert(batchg@[q as int].file_id == Some(ids@[q as int] as i64));
                assert(hasher_omitted(*hasher, ids@[q as int]));
                assert forall|x: u64|
                    #[trigger] failed@.contains(x) && !failed_entry.contains(x)
                        implies hasher_omitted(*hasher, x) by {
                    let w = choose|w: int| 0 <= w < failed@.len() && failed@[w] == x;
                    if w < before.len() {
                        assert(before[w] == x);
                        assert(before.contains(x));
                    } else {
                        assert(x == ids@[q as int]);
                    }
                }
            }
        } else {
            proof {
                lemma_sum_for_some(sums@, ids@[q as int]);
            }
        }
        q += 1;
    }
    proof {
        // every row fillable now was fillable at entry
        assert forall|i: int|
            0 <= i < db@.len() && fillable(#[trigger] db@[i], failed@) implies fillable(
            db_entry[i],
            failed_entry,
        ) by {
            assert(db@[i] == crate::db::row_after_sums(db_entry[i], sums@));
        }
        // the first batch member's row is no longer fillable
        let j0 = choose|j: int|
            0 <= j < db_entry.len() && fillable(#[trigger] db_entry[j], failed_entry)
                && batchv[0].file_id == Some(db_entry[j].id as i64) && batchv[0].b3sum is None;
        assert(ids@[0] as i64 == db_entry[j0].id as i64);
        assert(ids@[0] == db_entry[j0].id);
        assert(db@[j0] == crate::db::row_after_sums(db_entry[j0], sums@));
        if sum_for(sums@, db_entry[j0].id) is Some {
            assert(!fillable(db@[j0], failed@));
        } else {
            assert(failed@.contains(ids@[0]));
            assert(!fillable(db@[j0], failed@));
        }
        lemma_count_fillable_lt(db_entry, db@, failed_entry, failed@, j0);
    }
    false
}

/// The fingerprint-filling loop of a scan: fill rounds until no row
/// lacking a fingerprint remains unconsidered. Returns the ids marked
/// permanently unhashable.
///
/// When the loop ends, every row either carries a fingerprint the
/// hasher returned for it, or its id is in `failed` because some batch
/// handed to the hasher named it and the answer omitted it; rows that
/// already had a fingerprint are untouched, and no field other than the
/// fingerprint ever changes. With a hasher that answers for every batch
/// member, `lemma_covering_hasher_fills_all` turns these clauses into
/// "every row ends fingerprinted".
pub fn scan_dir<F: Fn(Vec<FileB3SumRow>) -> Vec<FileB3Sum>>(db: &mut Database, hasher: F) -> (
    failed: Vec<u64>)
    requires
        old(db).inv(),
        hasher_ok(hasher),
    ensures
        final(db).inv(),
        final(db)@.len() == old(db)@.len(),
        final(db).next_id == old(db).next_id,
        forall|i: int|
            0 <= i < old(db)@.len() ==> {
                &&& (#[trigger] final(db)@[i]).id == old(db)@[i].id
                &&& final(db)@[i].path == old(db)@[i].path
                &&& final(db)@[i].size == old(db)@[i].size
                &&& final(db)@[i].created_at == old(db)@[i].created_at
                &&& final(db)@[i].modified_at == old(db)@[i].modified_at
            },
        forall|i: int|
            0 <= i < old(db)@.len() && (#[trigger] old(db)@[i]).b3sum is Some ==> final(db)@[i]
                == old(db)@[i],
        forall|i: int|
            0 <= i < old(db)@.len() && (#[trigger] old(db)@[i]).b3sum is None
                && final(db)@[i].b3sum is Some ==> hasher_returned(
                hasher,
                old(db)@[i].id,
                final(db)@[i].b3sum,
            ),
        forall|x: u64| #[trigger] failed@.contains(x) ==> hasher_omitted(hasher, x),
        forall|i: int|
            0 <= i < final(db)@.len() && (#[trigger] final(db)@[i]).b3sum is None
                ==> failed@.contains(final(db)@[i].id),
{
    let mut failed: Vec<u64> = Vec::new();
    let mut done = fill_step(db, &hasher, &mut failed);
    while !done
        invariant
            db.inv(),
            db@.len() == old(db)@.len(),
            db.next_id == old(db).next_id,
            hasher_ok(hasher),
            forall|i: int|
                0 <= i < old(db)@.len() ==> {
                    &&& (#[trigger] db@[i]).id == old(db)@[i].id
                    &&& db@[i].path == old(db)@[i].path
                    &&& db@[i].size == old(db)@[i].size
                    &&& db@[i].created_at == old(db)@[i].created_at
                    &&& db@[i].modified_at == old(db)@[i].modified_at
                },
            forall|i: int|
                0 <= i < old(db)@.len() && (#[trigger] old(db)@[i]).b3sum is Some ==> db@[i]
                    == old(db)@[i],
            forall|i: int|
                0 <= i < old(db)@.len() && (#[trigger] old(db)@[i]).b3sum is None && db@[i].b3sum
                    is Some ==> hasher_returned(hasher, old(db)@[i].id, db@[i].b3sum),
            forall|x: u64| #[trigger] failed@.contains(x) ==> hasher_omitted(hasher, x),
            done ==> count_fillable(db@, failed@) == 0,
        decreases count_fillable(db@, failed@), (if done { 0int } else { 1int }),
    {
        let ghost db_prev = db@;
        let ghost failed_prev = failed@;
        done = fill_step(db, &hasher, &mut failed);
        proof {
            assert forall|i: int|
                0 <= i < old(db)@.len() && (#[trigger] old(db)@[i]).b3sum is None && db@[i].b3sum
                    is Some implies hasher_returned(hasher, old(db)@[i].id, db@[i].b3sum) by {
                if db_prev[i].b3sum is Some {
                    assert(db@[i] == db_prev[i]);
                } else {
                    assert(hasher_returned(hasher, db_prev[i].id, db@[i].b3sum));
                }
            }
            assert forall|x: u64| #[trigger] failed@.contains(x) implies hasher_omitted(
                hasher,
                x,
            ) by {
                if !failed_prev.contains(x) {
                    assert(hasher_omitted(hasher, x));
                }
            }
        }
    }
    proof {
        lemma_count_fillable_zero(db@, failed@);
    }
    failed
}

/// With a hasher that answers for every member of every batch, no id is
/// ever marked unhashable, so after the filling loop every stored row
/// carries a fingerprint: the second half of fill-loop correctness, to
/// be read together with `scan_dir`'s own clauses.
pub proof fn lemma_covering_hasher_fills_all<F: Fn(Vec<FileB3SumRow>) -> Vec<FileB3Sum>>(
    hasher: F,
    rows: Seq<RowModel>,
    failed: Seq<u64>,
)
    requires
        forall|b: Vec<FileB3SumRow>, out: Vec<FileB3Sum>|
            #[trigger] call_ensures(hasher, (b,), out) ==> forall|m: int|
                #![trigger b@[m]]
                0 <= m < b@.len() ==> exists|k: int|
                    0 <= k < out@.len() && b@[m].file_id == Some((#[trigger] out@[k]).file_id),
        forall|x: u64| #[trigger] failed.contains(x) ==> hasher_omitted(hasher, x),
        forall|i: int|
            0 <= i < rows.len() && (#[trigger] rows[i]).b3sum is None ==> failed.contains(
                rows[i].id,
            ),
        forall|i: int| 0 <= i < rows.len() ==> (#[trigger] rows[i]).id <= MAX_ID,
    ensures
        forall|i: int| 0 <= i < rows.len() ==> (#[trigger] rows[i]).b3sum is Some,
{
    assert forall|i: int| 0 <= i < rows.len() implies (#[trigger] rows[i]).b3sum is Some by {
        if rows[i].b3sum is None {
            let x = rows[i].id;
            assert(failed.contains(x));
            assert(hasher_omitted(hasher, x));
            let (b, out) = choose|b: Vec<FileB3SumRow>, out: Vec<FileB3Sum>|
                {
                    &&& #[trigger] call_ensures(hasher, (b,), out)
                    &&& exists|m: int|
                        0 <= m < b@.len() && (#[trigger] b@[m]).file_id == Some(x as i64)
                    &&& forall|k: int|
                        0 <= k < out@.len() ==> (#[trigger] out@[k]).file_id as int != x as int
                };
            let m = choose|m: int|
                0 <= m < b@.len() && (#[trigger] b@[m]).file_id == Some(x as i64);
            let k = choose|k: int|
                0 <= k < out@.len() && b@[m].file_id == Some((#[trigger] out@[k]).file_id);
            assert(out@[k].file_id == x as i64);
            assert(out@[k].file_id as int == x as int);
        }
    }
}

/// The size of the first listed file carrying the fingerprint `s`.
pub open spec fn first_size(l: Seq<B3RowModel>, s: Seq<char>) -> u64
    decreases l.len(),
{
    if l.len() == 0 {
        0
    } else if l.first().b3sum == Some(s) {
        l.first().size
    } else {
        first_size(l.drop_first(), s)
    }
}

/// What the file at index `i` adds to the reclaimable total: nothing if
/// it is the first of its cluster, otherwise the size of the cluster's
/// first member — so each cluster of k members contributes k - 1 copies.
pub open spec fn contribution(l: Seq<B3RowModel>, i: int) -> int {
    match l[i].b3sum {
        Some(s) => if exists|j: int| 0 <= j < i && (#[trigger] l[j]).b3sum == l[i].b3sum {
            first_size(l, s) as int
        } else {
            0
        },
        None => 0,
    }
}

/// The reclaimable total over the first `n` listed files.
pub open spec fn savings_upto(l: Seq<B3RowModel>, n: int) -> int
    decreases n,
{
    if n <= 0 {
        0
    } else {
        savings_upto(l, n - 1) + contribution(l, n - 1)
    }
}

/// The reclaimable total of a duplicate listing: all but one copy of
/// each cluster.
pub open spec fn savings_of(l: Seq<B3RowModel>) -> int {
    savings_upto(l, l.len() as int)
}

/// `v`, capped at what a u64 can hold.
pub open spec fn cap_u64(v: int) -> int {
    if v <= u64::MAX as int {
        v
    } else {
        u64::MAX as int
    }
}

/// The duplicate listing together with the total reclaimable size.
pub struct DuplicateReport {
    pub files: Vec<FileB3SumRow>,
    pub total_saved: u64,
}

/// The first index of the listing carrying the fingerprint `s`.
fn find_first_with(list: &Vec<FileB3SumRow>, s: &String) -> (o: Option<usize>)
    ensures
        match o {
            Some(f) => {
                &&& 0 <= f < list@.len()
                &&& b3models_of(list@)[f as int].b3sum == Some(s@)
                &&& forall|k: int|
                    0 <= k < f ==> (#[trigger] b3models_of(list@)[k]).b3sum != Some(s@)
                &&& first_size(b3models_of(list@), s@) == list@[f as int].size
            },
            None => forall|k: int|
                0 <= k < list@.len() ==> (#[trigger] b3models_of(list@)[k]).b3sum != Some(s@),
        },
{
    let ghost models = b3models_of(list@);
    let mut q: usize = 0;
    proof {
        assert(models.skip(0) =~= models);
    }
    while q < list.len()
        invariant
            q <= list@.len(),
            models == b3models_of(list@),
            forall|k: int| 0 <= k < q ==> (#[trigger] models[k]).b3sum != Some(s@),
            first_size(models, s@) == first_size(models.skip(q as int), s@),
        decreases list@.len() - q,
    {
        proof {
            assert(models.skip(q as int).first() == models[q as int]);
            assert(models.skip(q as int).drop_first() =~= models.skip(q + 1));
        }
        let hit = match &list[q].b3sum {
            Some(x) => *x == *s,
            None => false,
        };
        if hit {
            proof {
                assert(first_size(models.skip(q as int), s@) == models[q as int].size);
            }
            return Some(q);
        }
        q += 1;
    }
    None
}

/// The duplicate report: every member of every duplicate cluster,
/// ordered by size ascending, and the total reclaimable size — for each
/// cluster, all copies but the first. The total saturates at u64::MAX.
pub fn find_duplicates(db: &Database) -> (report: DuplicateReport)
    requires
        db.inv(),
    ensures
        forall|x: B3RowModel| count_elem(b3models_of(report.files@), x) == count_elem(
            dup_models(db@, db@),
            x,
        ),
        sorted_by_size(b3models_of(report.files@)),
        report.total_saved as int == cap_u64(savings_of(b3models_of(report.files@))),
{
    let files = db.get_duplicates();
    let ghost models = b3models_of(files@);
    let mut total: u64 = 0;
    let mut i: usize = 0;
    while i < files.len()
        invariant
            i <= files@.len(),
            models == b3models_of(files@),
            total as int == cap_u64(savings_upto(models, i as int)),
        decreases files@.len() - i,
    {
        let mut add: u64 = 0;
        let mut have = false;
        match &files[i].b3sum {
            Some(s) => {
                let found = find_first_with(&files, s);
                match found {
                    Some(f) => {
                        if f < i {
                            add = files[f].size;
                            have = true;
                        }
                    },
                    None => {
                        proof {
                            assert(models[i as int].b3sum == Some(s@));
                        }
                    },
                }
            },
            None => {},
        }
        proof {
            if have {
                assert(contribution(models, i as int) == add as int);
            } else {
                match models[i as int].b3sum {
                    Some(s) => {
                        assert(!(exists|j: int|
                            0 <= j < i && (#[trigger] models[j]).b3sum == models[i as int].b3sum));
                    },
                    None => {},
                }
                assert(contribution(models, i as int) == 0);
            }
            assert(savings_upto(models, i + 1) == savings_upto(models, i as int) + contribution(
                models,
                i as int,
            ));
            lemma_savings_upto_nonneg(models, i as int);
        }
        if total <= u64::MAX - add {
            total = total + add;
        } else {
            total = u64::MAX;
        }
        i += 1;
    }
    DuplicateReport { files, total_saved: total }
}

/// The reclaimable total never goes negative.
pub proof fn lemma_savings_upto_nonneg(l: Seq<B3RowModel>, n: int)
    ensures
        savings_upto(l, n) >= 0,
    decreases n,
{
    if n > 0 {
        lemma_savings_upto_nonneg(l, n - 1);
        if 0 <= n - 1 < l.len() {
            assert(contribution(l, n - 1) >= 0);
        } else {
        }
    }
}

/// For a cluster of `k` files sharing one fingerprint and one size, the
/// reclaimable total is exactly size * (k - 1): all copies but one.
pub proof fn lemma_uniform_cluster_savings(l: Seq<B3RowModel>, s: Seq<char>, size: u64)
    requires
        l.len() >= 1,
        forall|i: int| 0 <= i < l.len() ==> (#[trigger] l[i]).b3sum == Some(s) && l[i].size == size,
    ensures
        savings_of(l) == size * (l.len() - 1),
{
    lemma_uniform_cluster_savings_upto(l, s, size, l.len() as int);
}

proof fn lemma_uniform_cluster_savings_upto(l: Seq<B3RowModel>, s: Seq<char>, size: u64, n: int)
    requires
        1 <= n <= l.len(),
        forall|i: int| 0 <= i < l.len() ==> (#[trigger] l[i]).b3sum == Some(s) && l[i].size == size,
    ensures
        savings_upto(l, n) == size * (n - 1),
    decreases n,
{
    assert(first_size(l, s) == size) by {
        assert(l.first().b3sum == Some(s));
    }
    if n == 1 {
        assert(contribution(l, 0) == 0);
        assert(savings_upto(l, 1) == savings_upto(l, 0) + contribution(l, 0));
        assert(size * 0 == 0) by (nonlinear_arith);
    } else {
        lemma_uniform_cluster_savings_upto(l, s, size, n - 1);
        assert(l[0].b3sum == l[n - 1].b3sum);
        assert(exists|j: int| 0 <= j < n - 1 && (#[trigger] l[j]).b3sum == l[n - 1].b3sum);
        assert(contribution(l, n - 1) == size as int);
        assert(savings_upto(l, n) == savings_upto(l, n - 1) + contribution(l, n - 1));
        assert(size * (n - 1) == size * (n - 2) + size) by (nonlinear_arith);
    }
}

/// The first occurrence decides: files listed after one carrying the
/// fingerprint never change its first size.
proof fn lemma_first_size_concat_left(l1: Seq<B3RowModel>, l2: Seq<B3RowModel>, s: Seq<char>)
    requires
        exists|i: int| 0 <= i < l1.len() && (#[trigger] l1[i]).b3sum == Some(s),
    ensures
        first_size(l1 + l2, s) == first_size(l1, s),
    decreases l1.len(),
{
    assert(l1.len() > 0);
    assert((l1 + l2).first() == l1.first());
    if l1.first().b3sum == Some(s) {
    } else {
        let i = choose|i: int| 0 <= i < l1.len() && (#[trigger] l1[i]).b3sum == Some(s);
        assert(i >= 1);
        assert(l1.drop_first()[i - 1].b3sum == Some(s));
        lemma_first_size_concat_left(l1.drop_first(), l2, s);
        assert((l1 + l2).drop_first() =~= l1.drop_first() + l2);
    }
}

/// A fingerprint absent from the first part is first found in the second.
proof fn lemma_first_size_concat_right(l1: Seq<B3RowModel>, l2: Seq<B3RowModel>, s: Seq<char>)
    requires
        forall|i: int| 0 <= i < l1.len() ==> (#[trigger] l1[i]).b3sum != Some(s),
    ensures
        first_size(l1 + l2, s) == first_size(l2, s),
    decreases l1.len(),
{
    if l1.len() == 0 {
        assert(l1 + l2 =~= l2);
    } else {
        assert((l1 + l2).first() == l1.first());
        assert(l1[0].b3sum != Some(s));
        assert forall|i: int|
            0 <= i < l1.drop_first().len() implies (#[trigger] l1.drop_first()[i]).b3sum != Some(
            s,
        ) by {
            assert(l1.drop_first()[i] == l1[i + 1]);
        }
        lemma_first_size_concat_right(l1.drop_first(), l2, s);
        assert((l1 + l2).drop_first() =~= l1.drop_first() + l2);
    }
}

/// Within the first part, the running total ignores the second.
proof fn lemma_savings_upto_concat_prefix(l1: Seq<B3RowModel>, l2: Seq<B3RowModel>, n: int)
    requires
        0 <= n <= l1.len(),
    ensures
        savings_upto(l1 + l2, n) == savings_upto(l1, n),
    decreases n,
{
    if n > 0 {
        lemma_savings_upto_concat_prefix(l1, l2, n - 1);
        let l = l1 + l2;
        assert(l[n - 1] == l1[n - 1]);
        assert(forall|j: int| 0 <= j < n - 1 ==> #[trigger] l[j] == l1[j]);
        match l1[n - 1].b3sum {
            Some(s) => {
                if exists|j: int| 0 <= j < n - 1 && (#[trigger] l1[j]).b3sum == l1[n - 1].b3sum {
                    let j = choose|j: int|
                        0 <= j < n - 1 && (#[trigger] l1[j]).b3sum == l1[n - 1].b3sum;
                    assert((#[trigger] l[j]).b3sum == l[n - 1].b3sum);
                    assert(l1[n - 1].b3sum == Some(s));
                    lemma_first_size_concat_left(l1, l2, s);
                } else {
                    assert forall|j: int|
                        0 <= j < n - 1 implies (#[trigger] l[j]).b3sum != l[n - 1].b3sum by {
                        assert(l[j] == l1[j]);
                    }
                }
            },
            None => {},
        }
    }
}

proof fn lemma_savings_concat_step(l1: Seq<B3RowModel>, l2: Seq<B3RowModel>, m: int)
    requires
        0 <= m <= l2.len(),
        forall|i: int, j: int|
            0 <= i < l1.len() && 0 <= j < l2.len() ==> ((#[trigger] l1[i]).b3sum is None
                || l1[i].b3sum != (#[trigger] l2[j]).b3sum),
    ensures
        savings_upto(l1 + l2, l1.len() + m) == savings_of(l1) + savings_upto(l2, m),
    decreases m,
{
    if m == 0 {
        lemma_savings_upto_concat_prefix(l1, l2, l1.len() as int);
    } else {
        lemma_savings_concat_step(l1, l2, m - 1);
        let l = l1 + l2;
        let idx = l1.len() + m - 1;
        assert(l[idx] == l2[m - 1]);
        match l2[m - 1].b3sum {
            Some(s) => {
                if exists|j: int| 0 <= j < idx && (#[trigger] l[j]).b3sum == l[idx].b3sum {
                    let j = choose|j: int| 0 <= j < idx && (#[trigger] l[j]).b3sum == l[idx].b3sum;
                    if j < l1.len() {
                        assert(l[j] == l1[j]);
                        assert(l1[j].b3sum == (#[trigger] l2[m - 1]).b3sum);
                        assert(false);
                    } else {
                        assert(l[j] == l2[j - l1.len()]);
                        assert((#[trigger] l2[j - l1.len()]).b3sum == l2[m - 1].b3sum);
                    }
                    assert forall|i: int| 0 <= i < l1.len() implies (#[trigger] l1[i]).b3sum
                        != Some(s) by {
                        assert((#[trigger] l2[m - 1]).b3sum == Some(s));
                    }
                    lemma_first_size_concat_right(l1, l2, s);
                } else {
                    assert forall|j2: int|
                        0 <= j2 < m - 1 implies (#[trigger] l2[j2]).b3sum != l2[m - 1].b3sum by {
                        assert((#[trigger] l[l1.len() + j2]).b3sum == l2[j2].b3sum);
                    }
                }
            },
            None => {},
        }
    }
}

/// Reclaimable totals add across parts of a listing that share no
/// fingerprint: together with `lemma_uniform_cluster_savings`, a listing
/// made of disjoint uniform clusters — k files of one size per
/// fingerprint — totals the sum over its clusters of size * (k - 1).
pub proof fn lemma_savings_disjoint_concat(l1: Seq<B3RowModel>, l2: Seq<B3RowModel>)
    requires
        forall|i: int, j: int|
            0 <= i < l1.len() && 0 <= j < l2.len() ==> ((#[trigger] l1[i]).b3sum is None
                || l1[i].b3sum != (#[trigger] l2[j]).b3sum),
    ensures
        savings_of(l1 + l2) == savings_of(l1) + savings_of(l2),
{
    lemma_savings_concat_step(l1, l2, l2.len() as int);
    assert((l1 + l2).len() == l1.len() + l2.len());
}

/// Which rows survive reconciliation: those whose file is still present.
pub open spec fn keep_present_upto(rows: Seq<RowModel>, present: Seq<bool>, n: int) -> Seq<
    RowModel,
>
    decreases n,
{
    if n <= 0 {
        Seq::empty()
    } else if present[n - 1] {
        keep_present_upto(rows, present, n - 1).push(rows[n - 1])
    } else {
        keep_present_upto(rows, present, n - 1)
    }
}

/// The rows whose file is still on disk, in store order.
pub open spec fn keep_present(rows: Seq<RowModel>, present: Seq<bool>) -> Seq<RowModel> {
    keep_present_upto(rows, present, rows.len() as int)
}

/// Deleting exactly the ids of the absent rows keeps exactly the
/// present ones.
proof fn lemma_remove_by_present(rows: Seq<RowModel>, present: Seq<bool>, ids: Seq<u64>, n: int)
    requires
        present.len() == rows.len(),
        0 <= n <= rows.len(),
        forall|j: int|
            0 <= j < rows.len() ==> (ids.contains((#[trigger] rows[j]).id) <==> !present[j]),
    ensures
        remove_ids(rows.take(n), ids) == keep_present_upto(rows, present, n),
    decreases n,
{
    if n > 0 {
        assert(rows.take(n).drop_last() =~= rows.take(n - 1));
        assert(rows.take(n).last() == rows[n - 1]);
        lemma_remove_by_present(rows, present, ids, n - 1);
    } else {
        assert(rows.take(0) =~= Seq::<RowModel>::empty());
    }
}

/// The ids of the rows marked absent among the first `n`.
pub open spec fn missing_upto(rows: Seq<RowModel>, present: Seq<bool>, n: int) -> Seq<u64>
    decreases n,
{
    if n <= 0 {
        Seq::empty()
    } else if !present[n - 1] {
        missing_upto(rows, present, n - 1).push(rows[n - 1].id)
    } else {
        missing_upto(rows, present, n - 1)
    }
}

/// What `missing_upto` holds: exactly the ids of the absent rows.
proof fn lemma_missing_upto_mem(rows: Seq<RowModel>, present: Seq<bool>, n: int, x: u64)
    requires
        0 <= n <= rows.len(),
    ensures
        missing_upto(rows, present, n).contains(x) <==> exists|j2: int|
            0 <= j2 < n && x == (#[trigger] rows[j2]).id && !present[j2],
    decreases n,
{
    if n > 0 {
        lemma_missing_upto_mem(rows, present, n - 1, x);
        let m = missing_upto(rows, present, n);
        let prev = missing_upto(rows, present, n - 1);
        if !present[n - 1] {
            if m.contains(x) {
                let w = choose|w: int| 0 <= w < m.len() && m[w] == x;
                if w < prev.len() {
                    assert(prev[w] == x);
                    assert(prev.contains(x));
                } else {
                    assert(x == rows[n - 1].id && !present[n - 1]);
                }
            }
            if exists|j2: int| 0 <= j2 < n && x == (#[trigger] rows[j2]).id && !present[j2] {
                let j2 = choose|j2: int|
                    0 <= j2 < n && x == (#[trigger] rows[j2]).id && !present[j2];
                if j2 < n - 1 {
                    assert(prev.contains(x));
                    let w = choose|w: int| 0 <= w < prev.len() && prev[w] == x;
                    assert(m[w] == x);
                } else {
                    assert(m[m.len() - 1] == x);
                }
            }
        } else {
            if exists|j2: int| 0 <= j2 < n && x == (#[trigger] rows[j2]).id && !present[j2] {
                let j2 = choose|j2: int|
                    0 <= j2 < n && x == (#[trigger] rows[j2]).id && !present[j2];
                assert(j2 < n - 1);
            }
        }
    }
}

/// Reconciliation: `present` says, for each stored row in order, whether
/// its file still exists; exactly the rows marked absent are removed, in
/// one batched delete, and no other row is touched.
pub fn reconcile(db: &mut Database, present: &Vec<bool>) -> (r: crate::Result<()>)
    requires
        old(db).inv(),
        present@.len() == old(db)@.len(),
    ensures
        final(db).inv(),
        r is Ok,
        final(db)@ == keep_present(old(db)@, present@),
        final(db).next_id == old(db).next_id,
{
    let mut missing: Vec<u64> = Vec::new();
    let mut j: usize = 0;
    while j < present.len()
        invariant
            db.inv(),
            present@.len() == db@.len(),
            j <= present@.len(),
            db@ == old(db)@,
            db.next_id == old(db).next_id,
            missing@ == missing_upto(db@, present@, j as int),
        decreases present@.len() - j,
    {
        if !present[j] {
            let ghost before = missing@;
            missing.push(db.rows[j].id);
            proof {
                assert(missing@ =~= before.push(db@[j as int].id));
            }
        }
        j += 1;
    }
    proof {
        assert(rows_distinct(db@));
        assert forall|j2: int|
            0 <= j2 < db@.len() implies (missing@.contains((#[trigger] db@[j2]).id)
            <==> !present@[j2]) by {
            lemma_missing_upto_mem(db@, present@, db@.len() as int, db@[j2].id);
            if missing@.contains(db@[j2].id) {
                let j3 = choose|j3: int|
                    0 <= j3 < db@.len() && db@[j2].id == (#[trigger] db@[j3]).id && !present@[j3];
                if j3 != j2 {
                    assert(db@[j2].id != db@[j3].id);
                }
            }
        }
        lemma_remove_by_present(db@, present@, missing@, db@.len() as int);
        assert(db@.take(db@.len() as int) =~= db@);
    }
    db.delete_files(missing.as_slice())
}

} // verus!
