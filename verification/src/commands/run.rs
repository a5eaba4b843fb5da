//! The decisions of a compression run around the compression itself:
//! checking the arguments, splitting the scan, the dry-run estimate and
//! the figures of the summary.
use vstd::prelude::*;
use vstd::string::StringExecFns;

use crate::error::ShrinkError;
use crate::keys::rotation::KeyPoolSnapshot;
use crate::runner::{summary_exit_code, CompressResult, RunSummary};
use crate::scan::FileTask;
use crate::size::{excess_bits, nearest_double, nearest_double_of};
use crate::text::{distinct_texts, text_in};

verus! {

/// A run needs at least one path.
pub fn require_paths(paths: &[String]) -> (r: Result<(), ShrinkError>)
    ensures
        paths@.len() > 0 ==> r is Ok,
        paths@.len() == 0 ==> (r matches Err(ShrinkError::BadArgument(m)) && m@
            == "no path given; try `tinypng --help`"@),
{
    if paths.len() == 0 {
        return Err(ShrinkError::BadArgument(String::from_str("no path given; try `tinypng --help`")));
    }
    Ok(())
}

/// The saving a dry run estimates for a file of `size` bytes: half of it,
/// computed as `(size as f64 * 0.5) as u64`.
pub open spec fn half_estimate(size: u64) -> nat {
    nearest_double(size as nat) / 2
}

/// The dry-run saving estimate for a file of `size` bytes.
pub fn dry_run_estimate(size: u64) -> (e: u64)
    ensures
        e == half_estimate(size),
        e <= size,
{
    let v = nearest_double_of(size);
    proof {
        if size >= 0x20_0000_0000_0000 {
            assert(v <= size + 2048);
        } else {
            assert(excess_bits(size as nat) == 0);
        }
    }
    (v / 2) as u64
}

/// The total original size of `tasks`.
pub open spec fn task_bytes(tasks: Seq<FileTask>) -> nat
    decreases tasks.len(),
{
    if tasks.len() == 0 {
        0
    } else {
        task_bytes(tasks.drop_last()) + tasks.last().original_size as nat
    }
}

/// The total estimated saving of `tasks`.
pub open spec fn estimated_savings(tasks: Seq<FileTask>) -> nat
    decreases tasks.len(),
{
    if tasks.len() == 0 {
        0
    } else {
        estimated_savings(tasks.drop_last()) + half_estimate(tasks.last().original_size)
    }
}

/// The total size of the files to compress.
pub fn total_bytes(tasks: &[FileTask]) -> (n: u64)
    requires
        task_bytes(tasks@) <= u64::MAX,
    ensures
        n == task_bytes(tasks@),
{
    let mut n: u64 = 0;
    let mut i: usize = 0;
    proof {
        lemma_task_bytes_prefix(tasks@);
    }
    while i < tasks.len()
        invariant
            i <= tasks@.len(),
            task_bytes(tasks@) <= u64::MAX,
            forall|k: int| 0 <= k <= tasks@.len() ==> task_bytes(#[trigger] tasks@.take(k)) <= task_bytes(tasks@),
            n == task_bytes(tasks@.take(i as int)),
        decreases tasks@.len() - i,
    {
        proof {
            assert(tasks@.take(i + 1).drop_last() =~= tasks@.take(i as int));
            assert(task_bytes(tasks@.take(i + 1)) <= task_bytes(tasks@));
        }
        n = n + tasks[i].original_size;
        i = i + 1;
    }
    proof {
        assert(tasks@.take(tasks@.len() as int) =~= tasks@);
    }
    n
}

proof fn lemma_task_bytes_prefix(tasks: Seq<FileTask>)
    ensures
        forall|k: int| 0 <= k <= tasks.len() ==> task_bytes(#[trigger] tasks.take(k)) <= task_bytes(tasks),
    decreases tasks.len(),
{
    if tasks.len() > 0 {
        let p = tasks.drop_last();
        lemma_task_bytes_prefix(p);
        assert forall|k: int| 0 <= k <= tasks.len() implies task_bytes(#[trigger] tasks.take(k)) <= task_bytes(tasks) by {
            if k < tasks.len() {
                assert(tasks.take(k) =~= p.take(k));
                assert(p.take(p.len() as int) =~= p);
            } else {
                assert(tasks.take(k) =~= tasks);
            }
        }
    } else {
        assert forall|k: int| 0 <= k <= tasks.len() implies task_bytes(#[trigger] tasks.take(k)) <= task_bytes(tasks) by {
            assert(tasks.take(k) =~= tasks);
        }
    }
}

/// The summary of a dry run over `tasks`, with `skipped` files skipped
/// out of `total_files`, and the estimated saving of each task: nothing is
/// compressed, and each file is estimated to shrink by half.
pub fn dry_run_summary(tasks: &[FileTask], skipped: usize, total_files: usize) -> (r: (RunSummary, Vec<u64>))
    requires
        task_bytes(tasks@) <= u64::MAX,
    ensures
        r.0.total == total_files,
        r.0.skipped == skipped,
        r.0.success == 0,
        r.0.fail == 0,
        r.0.duration_ms == 0,
        r.0.original_total_bytes == task_bytes(tasks@),
        r.0.saved_bytes == estimated_savings(tasks@),
        r.0.compressed_total_bytes + r.0.saved_bytes == task_bytes(tasks@),
        r.1@.len() == tasks@.len(),
        forall|i: int| 0 <= i < tasks@.len() ==> #[trigger] r.1@[i] == half_estimate(tasks@[i].original_size),
{
    let mut estimates: Vec<u64> = Vec::new();
    let mut original: u64 = 0;
    let mut compressed: u64 = 0;
    let mut saved: u64 = 0;
    let mut i: usize = 0;
    proof {
        lemma_task_bytes_prefix(tasks@);
    }
    while i < tasks.len()
        invariant
            i <= tasks@.len(),
            task_bytes(tasks@) <= u64::MAX,
            forall|k: int| 0 <= k <= tasks@.len() ==> task_bytes(#[trigger] tasks@.take(k)) <= task_bytes(tasks@),
            original == task_bytes(tasks@.take(i as int)),
            saved == estimated_savings(tasks@.take(i as int)),
            compressed + saved == original,
            estimates@.len() == i,
            forall|j: int| 0 <= j < i ==> #[trigger] estimates@[j] == half_estimate(tasks@[j].original_size),
        decreases tasks@.len() - i,
    {
        proof {
            assert(tasks@.take(i + 1).drop_last() =~= tasks@.take(i as int));
            assert(task_bytes(tasks@.take(i + 1)) <= task_bytes(tasks@));
        }
        let size = tasks[i].original_size;
        let est = dry_run_estimate(size);
        original = original + size;
        compressed = compressed + (size - est);
        saved = saved + est;
        estimates.push(est);
        i = i + 1;
    }
    proof {
        assert(tasks@.take(tasks@.len() as int) =~= tasks@);
    }
    let summary = RunSummary {
        total: total_files,
        success: 0,
        fail: 0,
        skipped,
        original_total_bytes: original,
        compressed_total_bytes: compressed,
        saved_bytes: saved,
        duration_ms: 0,
    };
    (summary, estimates)
}

/// The hashes of the keys that compressed a file, in order.
pub open spec fn success_hashes(results: Seq<CompressResult>) -> Seq<Seq<char>>
    decreases results.len(),
{
    if results.len() == 0 {
        Seq::empty()
    } else {
        let rest = success_hashes(results.drop_last());
        match results.last() {
            CompressResult::Success { key_hash, .. } => rest.push(key_hash@),
            _ => rest,
        }
    }
}

/// How many distinct keys compressed a file.
pub fn keys_used(results: &[CompressResult]) -> (n: usize)
    ensures
        n == success_hashes(results@).to_set().len(),
{
    let mut hashes: Vec<String> = Vec::new();
    let mut i: usize = 0;
    while i < results.len()
        invariant
            i <= results@.len(),
            hashes@.map_values(|h: String| h@) == success_hashes(results@.take(i as int)),
        decreases results@.len() - i,
    {
        proof {
            assert(results@.take(i + 1).drop_last() =~= results@.take(i as int));
        }
        match &results[i] {
            CompressResult::Success { key_hash, .. } => {
                let ghost before = hashes@;
                hashes.push(key_hash.clone());
                proof {
                    assert(hashes@.map_values(|h: String| h@) =~= before.map_values(|h: String| h@).push(key_hash@));
                }
            },
            _ => {},
        }
        i = i + 1;
    }
    proof {
        assert(results@.take(results@.len() as int) =~= results@);
    }
    let ghost all = hashes@.map_values(|h: String| h@);
    let distinct = distinct_texts(hashes);
    proof {
        let dv = distinct@.map_values(|h: String| h@);
        assert(dv.no_duplicates()) by {
            assert forall|a: int, b: int| 0 <= a < dv.len() && 0 <= b < dv.len() && a != b implies dv[a] != dv[b] by {
                if a < b {
                    assert(distinct@[a]@ != distinct@[b]@);
                } else {
                    assert(distinct@[b]@ != distinct@[a]@);
                }
            }
        }
        dv.unique_seq_to_set();
        assert(dv.to_set() =~= all.to_set()) by {
            assert forall|t: Seq<char>| dv.to_set().contains(t) <==> all.to_set().contains(t) by {
                if dv.contains(t) {
                    let k = choose|k: int| 0 <= k < dv.len() && dv[k] == t;
                    assert(text_in(distinct@, t));
                    assert(text_in(hashes@, t));
                    let m = choose|m: int| 0 <= m < hashes@.len() && #[trigger] hashes@[m]@ == t;
                    assert(all[m] == t);
                }
                if all.contains(t) {
                    let m = choose|m: int| 0 <= m < all.len() && all[m] == t;
                    assert(hashes@[m]@ == t);
                    assert(text_in(hashes@, t));
                    let k = choose|k: int| 0 <= k < distinct@.len() && #[trigger] distinct@[k]@ == t;
                    assert(dv[k] == t);
                }
            }
        }
    }
    distinct.len()
}

/// The number of keys the run found dead: exhausted or invalid.
pub fn keys_exhausted(snapshot: &KeyPoolSnapshot) -> (n: usize)
    requires
        snapshot.exhausted + snapshot.invalid <= usize::MAX,
    ensures
        n == snapshot.exhausted + snapshot.invalid,
{
    snapshot.exhausted + snapshot.invalid
}

/// The exit code a run reports: 0 for a dry run, the summary's otherwise.
pub fn run_exit_code(summary: &RunSummary, dry_run: bool) -> (c: i32)
    ensures
        c == if dry_run {
            0
        } else {
            summary_exit_code(summary.fail, summary.success)
        },
{
    if dry_run {
        0
    } else {
        summary.exit_code()
    }
}

} // verus!

verus! {

/// Below 2^53 bytes, where every size is exactly a double, the dry-run
/// estimate is exactly half the size, rounded down.
pub proof fn law_estimate_is_half(size: u64)
    requires
        size < 0x20_0000_0000_0000,
    ensures
        half_estimate(size) == size / 2,
{
}

} // verus!
