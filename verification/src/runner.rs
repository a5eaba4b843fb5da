//! The outcome of compressing files: per-file results, the summary of a
//! run, the decisions taken for one file between calls to the service,
//! and where a compressed file is written.
use vstd::prelude::*;
use vstd::string::StringExecFns;

use crate::error::{error_is_key_dead, error_is_transient, SerializedError, ShrinkError};
use crate::keys::rotation::{marked, rotation_pick, cursor_after, KeyPool, KeyStatus};
use crate::keys::Key;
use crate::scan::FileTask;
use crate::text::{
    extension_of, file_name_of, file_stem_of, has_prefix, join_path, parent_of, path_extension,
    path_file_name, path_file_stem, path_join, path_parent, path_with_extension, with_extension,
};

verus! {

/// How many keys one file may be tried with.
pub const MAX_KEY_SWITCHES: usize = 5;

/// The result of compressing one file.
#[derive(Debug, Clone)]
pub enum CompressResult {
    Success {
        task: FileTask,
        compressed_size: u64,
        output_path: String,
        key_hash: String,
        duration_ms: u64,
    },
    Failure { task: FileTask, error: SerializedError, attempted_keys: Vec<String>, duration_ms: u64 },
}

/// The totals of a run.
#[derive(Debug, Clone)]
pub struct RunSummary {
    pub total: usize,
    pub success: usize,
    pub fail: usize,
    pub skipped: usize,
    pub original_total_bytes: u64,
    pub compressed_total_bytes: u64,
    pub saved_bytes: u64,
    pub duration_ms: u64,
}

impl Default for RunSummary {
    fn default() -> (s: RunSummary)
        ensures
            s.total == 0,
            s.success == 0,
            s.fail == 0,
            s.skipped == 0,
            s.original_total_bytes == 0,
            s.compressed_total_bytes == 0,
            s.saved_bytes == 0,
            s.duration_ms == 0,
    {
        RunSummary {
            total: 0,
            success: 0,
            fail: 0,
            skipped: 0,
            original_total_bytes: 0,
            compressed_total_bytes: 0,
            saved_bytes: 0,
            duration_ms: 0,
        }
    }
}

/// The exit code of a run: 0 when nothing failed, 1 when some files
/// failed and some succeeded, 4 when every compressed file failed.
pub open spec fn summary_exit_code(fail: usize, success: usize) -> i32 {
    if fail == 0 {
        0
    } else if success > 0 {
        1
    } else {
        4
    }
}

impl RunSummary {
    /// The exit code of the run.
    pub fn exit_code(&self) -> (c: i32)
        ensures
            c == summary_exit_code(self.fail, self.success),
    {
        if self.fail == 0 {
            0
        } else if self.success > 0 {
            1
        } else {
            4
        }
    }
}

/// The number of successes among `results`.
pub open spec fn count_success(results: Seq<CompressResult>) -> nat
    decreases results.len(),
{
    if results.len() == 0 {
        0
    } else {
        count_success(results.drop_last()) + if results.last() is Success {
            1nat
        } else {
            0nat
        }
    }
}

/// The total original size of the files of `results`.
pub open spec fn original_bytes(results: Seq<CompressResult>) -> nat
    decreases results.len(),
{
    if results.len() == 0 {
        0
    } else {
        original_bytes(results.drop_last()) + match results.last() {
            CompressResult::Success { task, .. } => task.original_size as nat,
            CompressResult::Failure { task, .. } => task.original_size as nat,
        }
    }
}

/// The total size after the run: the compressed size of each success and
/// the unchanged size of each failure.
pub open spec fn compressed_bytes(results: Seq<CompressResult>) -> nat
    decreases results.len(),
{
    if results.len() == 0 {
        0
    } else {
        compressed_bytes(results.drop_last()) + match results.last() {
            CompressResult::Success { compressed_size, .. } => compressed_size as nat,
            CompressResult::Failure { task, .. } => task.original_size as nat,
        }
    }
}

/// The summary of the compression results `results` of a run of `total`
/// files that took `duration_ms`: successes and failures counted, sizes
/// summed, the saving being the original total less the compressed total
/// (nothing when the compressed total is larger).
pub fn tally(results: &[CompressResult], total: usize, duration_ms: u64) -> (s: RunSummary)
    requires
        original_bytes(results@) <= u64::MAX,
        compressed_bytes(results@) <= u64::MAX,
    ensures
        s.total == total,
        s.success == count_success(results@),
        s.fail == results@.len() - count_success(results@),
        s.skipped == 0,
        s.original_total_bytes == original_bytes(results@),
        s.compressed_total_bytes == compressed_bytes(results@),
        s.saved_bytes == if original_bytes(results@) >= compressed_bytes(results@) {
            (original_bytes(results@) - compressed_bytes(results@)) as nat
        } else {
            0
        },
        s.duration_ms == duration_ms,
{
    let mut success: usize = 0;
    let mut fail: usize = 0;
    let mut original: u64 = 0;
    let mut compressed: u64 = 0;
    let mut i: usize = 0;
    proof {
        lemma_sums_monotone(results@, 0, results@.len() as int);
    }
    while i < results.len()
        invariant
            i <= results@.len(),
            original_bytes(results@) <= u64::MAX,
            compressed_bytes(results@) <= u64::MAX,
            forall|k: int| 0 <= k <= results@.len() ==> original_bytes(#[trigger] results@.take(k)) <= original_bytes(results@)
                && compressed_bytes(results@.take(k)) <= compressed_bytes(results@),
            success == count_success(results@.take(i as int)),
            success + fail == i,
            original == original_bytes(results@.take(i as int)),
            compressed == compressed_bytes(results@.take(i as int)),
        decreases results@.len() - i,
    {
        proof {
            assert(results@.take(i + 1).drop_last() =~= results@.take(i as int));
            assert(results@.take(i + 1).last() == results@[i as int]);
            assert(original_bytes(results@.take(i + 1)) <= original_bytes(results@));
            assert(compressed_bytes(results@.take(i + 1)) <= compressed_bytes(results@));
        }
        match &results[i] {
            CompressResult::Success { task, compressed_size, .. } => {
                success = success + 1;
                original = original + task.original_size;
                compressed = compressed + *compressed_size;
            },
            CompressResult::Failure { task, .. } => {
                fail = fail + 1;
                original = original + task.original_size;
                compressed = compressed + task.original_size;
            },
        }
        i = i + 1;
    }
    proof {
        assert(results@.take(results@.len() as int) =~= results@);
    }
    RunSummary {
        total,
        success,
        fail,
        skipped: 0,
        original_total_bytes: original,
        compressed_total_bytes: compressed,
        saved_bytes: original.saturating_sub(compressed),
        duration_ms,
    }
}

proof fn lemma_sums_monotone(results: Seq<CompressResult>, k: int, n: int)
    requires
        0 <= k <= n <= results.len(),
        n == results.len(),
    ensures
        forall|j: int| 0 <= j <= n ==> original_bytes(#[trigger] results.take(j)) <= original_bytes(results)
            && compressed_bytes(results.take(j)) <= compressed_bytes(results),
    decreases n,
{
    if n > 0 {
        let p = results.drop_last();
        lemma_sums_monotone(p, 0, n - 1);
        assert forall|j: int| 0 <= j <= n implies original_bytes(#[trigger] results.take(j)) <= original_bytes(
            results,
        ) && compressed_bytes(results.take(j)) <= compressed_bytes(results) by {
            if j < n {
                assert(results.take(j) =~= p.take(j));
                assert(p.take(n - 1) =~= p);
            } else {
                assert(results.take(j) =~= results);
            }
        }
    } else {
        assert forall|j: int| 0 <= j <= n implies original_bytes(#[trigger] results.take(j)) <= original_bytes(
            results,
        ) && compressed_bytes(results.take(j)) <= compressed_bytes(results) by {
            assert(results.take(j) =~= results);
        }
    }
}

} // verus!

verus! {

/// The state of the compression of one file: how many keys have been
/// drawn for it, the hashes of the keys it was tried with, and the last
/// refusal (`KeyExhausted` or `KeyInvalid`) that found one of them dead.
#[derive(Debug)]
pub struct Attempt {
    pub draws: usize,
    pub attempted_keys: Vec<String>,
    pub last_dead: Option<ShrinkError>,
}

/// What to do next for one file.
#[derive(Debug)]
pub enum AttemptStep {
    /// Send the file to the service with this key.
    Call(Key),
    /// Stop: the file fails with this error.
    GiveUp(ShrinkError),
}

/// The file itself is bad: another key would not help.
pub open spec fn error_is_fatal_for_file(e: ShrinkError) -> bool {
    e is InvalidImage || e is UnsupportedFormat || e is FileTooLarge
}

impl Attempt {
    /// A file not tried yet.
    pub fn new() -> (a: Attempt)
        ensures
            attempt_sound(a),
            a.draws == 0,
            a.attempted_keys@.len() == 0,
            a.last_dead is None,
    {
        Attempt { draws: 0, attempted_keys: Vec::new(), last_dead: None }
    }

    /// Draws the next key for the file. After `MAX_KEY_SWITCHES` draws the
    /// file gives up with `MaxRetriesExceeded` and the pool is left alone;
    /// otherwise the pool is asked for its next healthy key: the file is
    /// sent with it (and its hash recorded), or gives up: with
    /// `NoKeysConfigured` for an empty pool, and when no key is healthy with
    /// the refusal that found the last of this file's keys dead, or
    /// `AllKeysExhausted` when none was healthy before this file.
    pub fn next_step(&mut self, pool: &mut KeyPool) -> (step: AttemptStep)
        ensures
            attempt_sound(*old(self)) ==> attempt_sound(*final(self)),
            old(self).draws >= MAX_KEY_SWITCHES ==> {
                &&& step == AttemptStep::GiveUp(ShrinkError::MaxRetriesExceeded)
                &&& *final(pool) == *old(pool)
                &&& final(self).draws == old(self).draws
                &&& final(self).attempted_keys@ == old(self).attempted_keys@
            },
            final(self).last_dead == old(self).last_dead,
            old(self).draws < MAX_KEY_SWITCHES ==> {
                &&& final(self).draws == old(self).draws + 1
                &&& final(pool).keys() == old(pool).keys()
                &&& final(pool).statuses() == old(pool).statuses()
                &&& final(pool).statuses().len() == final(pool).keys().len()
                &&& old(pool).keys().len() == 0 ==> step == AttemptStep::GiveUp(ShrinkError::NoKeysConfigured)
                    && final(pool).cursor() == old(pool).cursor()
                    && final(self).attempted_keys@ == old(self).attempted_keys@
                &&& old(pool).keys().len() > 0 ==> final(pool).cursor() == cursor_after(old(pool).cursor())
                &&& old(pool).keys().len() > 0 ==> match rotation_pick(old(pool).statuses(), old(pool).cursor() as int) {
                    Some(i) => step == AttemptStep::Call(old(pool).keys()[i])
                        && final(self).attempted_keys@ == old(self).attempted_keys@.push(old(pool).keys()[i].hash),
                    None => step == AttemptStep::GiveUp(pool_dry_error(old(self).last_dead))
                        && final(self).attempted_keys@ == old(self).attempted_keys@,
                }
            },
    {
        if self.draws >= MAX_KEY_SWITCHES {
            return AttemptStep::GiveUp(ShrinkError::MaxRetriesExceeded);
        }
        self.draws = self.draws + 1;
        match pool.next_healthy() {
            Ok(key) => {
                self.attempted_keys.push(key.hash.clone());
                AttemptStep::Call(key)
            },
            Err(e) => match e {
                ShrinkError::AllKeysExhausted => match &self.last_dead {
                    Some(dead) => AttemptStep::GiveUp(dead.clone_error()),
                    None => AttemptStep::GiveUp(ShrinkError::AllKeysExhausted),
                },
                _ => AttemptStep::GiveUp(e),
            },
        }
    }

    /// Handles a failed call made with `key`. A bad file (invalid image,
    /// unsupported format, file too large) gives up at once; an exhausted
    /// or invalid key is marked so in the pool and the file moves on to
    /// another key (the refusal is remembered as the last that found a key
    /// dead); a transient failure moves on as well; anything else gives up.
    /// Returns the error to give up with, if any.
    pub fn after_failure(&mut self, pool: &mut KeyPool, key: &Key, e: ShrinkError) -> (r: Option<ShrinkError>)
        ensures
            attempt_sound(*old(self)) ==> attempt_sound(*final(self)),
            final(self).draws == old(self).draws,
            final(self).attempted_keys@ == old(self).attempted_keys@,
            final(self).last_dead == if error_is_key_dead(e) {
                Some(e)
            } else {
                old(self).last_dead
            },
            final(pool).keys() == old(pool).keys(),
            final(pool).cursor() == old(pool).cursor(),
            error_is_fatal_for_file(e) ==> r == Some(e) && final(pool).statuses() == old(pool).statuses(),
            (e is InvalidImage || e is UnsupportedFormat || e is FileTooLarge) ==> r == Some(e)
                && final(pool).statuses() == old(pool).statuses() && final(self).last_dead == old(self).last_dead,
            e is KeyExhausted ==> r is None && final(pool).statuses() == marked(old(pool).keys(), old(pool).statuses(), key.hash@, KeyStatus::Exhausted),
            e is KeyInvalid ==> r is None && final(pool).statuses() == marked(old(pool).keys(), old(pool).statuses(), key.hash@, KeyStatus::Invalid),
            error_is_transient(e) ==> r is None && final(pool).statuses() == old(pool).statuses(),
            !error_is_fatal_for_file(e) && !error_is_key_dead(e) && !error_is_transient(e) ==> r == Some(e)
                && final(pool).statuses() == old(pool).statuses(),
    {
        match e {
            ShrinkError::InvalidImage(_) | ShrinkError::UnsupportedFormat(_) | ShrinkError::FileTooLarge { .. } => {
                return Some(e);
            },
            _ => {},
        }
        if e.is_key_dead() {
            match e {
                ShrinkError::KeyExhausted => pool.mark_exhausted(key.hash.as_str()),
                ShrinkError::KeyInvalid => pool.mark_invalid(key.hash.as_str()),
                _ => {},
            }
            self.last_dead = Some(e);
            return None;
        }
        if e.is_transient() {
            return None;
        }
        Some(e)
    }
}

} // verus!

verus! {

/// The name `generate_compressed_name` gives: `compressed_<stem>.<ext>`,
/// or `compressed_<stem>` without an extension, in the same directory.
/// A path without a parent counts as in `.`, one without a stem has the
/// stem `output`.
pub open spec fn compressed_name(path: Seq<char>) -> Seq<char> {
    let dir = match path_parent(path) {
        Some(d) => d,
        None => "."@,
    };
    let stem = match path_file_stem(path) {
        Some(s) => s,
        None => "output"@,
    };
    let ext = match path_extension(path) {
        Some(e) => e,
        None => Seq::empty(),
    };
    let name = if ext.len() == 0 {
        "compressed_"@ + stem
    } else {
        "compressed_"@ + stem + "."@ + ext
    };
    path_join(dir, name)
}

/// The path a compressed copy of `path` is written to when originals are
/// kept.
pub fn generate_compressed_name(path: &str) -> (p: String)
    ensures
        p@ == compressed_name(path@),
{
    let dir = match parent_of(path) {
        Some(d) => d,
        None => String::from_str("."),
    };
    let stem = match file_stem_of(path) {
        Some(s) => s,
        None => String::from_str("output"),
    };
    let ext = match extension_of(path) {
        Some(e) => e,
        None => String::new(),
    };
    let mut name = String::from_str("compressed_");
    name.append(stem.as_str());
    if !ext.as_str().is_empty() {
        name.append(".");
        name.append(ext.as_str());
    }
    proof {
        assert(("compressed_"@ + stem@) + "."@ + ext@ == "compressed_"@ + stem@ + "."@ + ext@);
    }
    join_path(dir.as_str(), name.as_str())
}

/// Where the compressed form of `path` goes: into `output_dir` under the
/// same file name when one is given, over the original when overwriting,
/// and next to it as `compressed_*` otherwise.
pub open spec fn output_path(path: Seq<char>, output_dir: Option<Seq<char>>, overwrite: bool) -> Seq<char> {
    match output_dir {
        Some(dir) => path_join(dir, path_file_name(path).unwrap()),
        None => if overwrite {
            path
        } else {
            compressed_name(path)
        },
    }
}

/// The output path of the compressed form of `path`.
pub fn output_path_for(path: &str, output_dir: Option<&str>, overwrite: bool) -> (p: String)
    requires
        output_dir is Some ==> path_file_name(path@) is Some,
    ensures
        p@ == output_path(
            path@,
            match output_dir {
                Some(d) => Some(d@),
                None => None,
            },
            overwrite,
        ),
{
    match output_dir {
        Some(dir) => {
            let name = match file_name_of(path) {
                Some(n) => n,
                None => String::new(),
            };
            join_path(dir, name.as_str())
        },
        None => if overwrite {
            String::from_str(path)
        } else {
            generate_compressed_name(path)
        },
    }
}

/// The output path of the compressed form of `path`, or `None` when an
/// output directory is given and `path` has no file name to keep there.
pub fn checked_output_path(path: &str, output_dir: Option<&str>, overwrite: bool) -> (r: Option<String>)
    ensures
        r is None <==> (output_dir is Some && path_file_name(path@) is None),
        r matches Some(p) ==> p@ == output_path(
            path@,
            match output_dir {
                Some(d) => Some(d@),
                None => None,
            },
            overwrite,
        ),
{
    if output_dir.is_some() && file_name_of(path).is_none() {
        return None;
    }
    Some(output_path_for(path, output_dir, overwrite))
}

/// The temporary file a compressed file is first written to: its output
/// path with the extension `tinypng.tmp`.
pub fn temporary_path_for(output: &str) -> (p: String)
    ensures
        p@ == path_with_extension(output@, "tinypng.tmp"@),
{
    proof {
        reveal_strlit("tinypng.tmp");
    }
    with_extension(output, "tinypng.tmp")
}

} // verus!

verus! {

/// The exit code of a run is 0 exactly when nothing failed, 4 exactly when
/// something failed and nothing succeeded, and 1 otherwise.
pub proof fn law_summary_exit_code(fail: usize, success: usize)
    ensures
        (summary_exit_code(fail, success) == 0) <==> fail == 0,
        (summary_exit_code(fail, success) == 4) <==> (fail > 0 && success == 0),
        (summary_exit_code(fail, success) == 1) <==> (fail > 0 && success > 0),
{
}

/// Originals are kept unless overwriting is asked for: with no output
/// directory, the compressed form goes into a file whose name starts with
/// `compressed_`, joined to a directory, and only when overwriting is it
/// the original path itself.
pub proof fn law_originals_kept_unless_overwrite(path: Seq<char>)
    ensures
        exists|dir: Seq<char>, name: Seq<char>|
            output_path(path, None, false) == #[trigger] path_join(dir, name) && has_prefix(
                name,
                "compressed_"@,
            ),
        output_path(path, None, true) == path,
{
    let dir = match path_parent(path) {
        Some(d) => d,
        None => "."@,
    };
    let stem = match path_file_stem(path) {
        Some(s) => s,
        None => "output"@,
    };
    let ext = match path_extension(path) {
        Some(e) => e,
        None => Seq::empty(),
    };
    let name = if ext.len() == 0 {
        "compressed_"@ + stem
    } else {
        "compressed_"@ + stem + "."@ + ext
    };
    reveal_strlit("compressed_");
    assert(name.subrange(0, 11) =~= "compressed_"@);
    assert(output_path(path, None, false) == path_join(dir, name));
}

/// A bad file ends its attempt at once: an invalid image, an unsupported
/// format or a file too large is final for the file, never worth retrying
/// and never a sign of a dead key, so no other key is tried for it.
pub proof fn law_bad_file_errors_are_final(e: ShrinkError)
    requires
        e is InvalidImage || e is UnsupportedFormat || e is FileTooLarge,
    ensures
        error_is_fatal_for_file(e),
        !error_is_transient(e),
        !error_is_key_dead(e),
{
}

/// The bookkeeping of one file is sound: no more keys are tried than
/// draws made, and never more than `MAX_KEY_SWITCHES` draws.
pub open spec fn attempt_sound(a: Attempt) -> bool {
    &&& a.attempted_keys@.len() <= a.draws <= MAX_KEY_SWITCHES
    &&& a.last_dead matches Some(e) ==> error_is_key_dead(e)
}

/// The error a file gives up with when the pool has no healthy key left:
/// the refusal that found the last of its keys dead (`key_exhausted` when
/// the keys hit their quota, `key_invalid` when they were rejected) when
/// this file found one dead, and `AllKeysExhausted` when no healthy key was
/// left before it.
pub open spec fn pool_dry_error(last_dead: Option<ShrinkError>) -> ShrinkError {
    match last_dead {
        Some(e) => e,
        None => ShrinkError::AllKeysExhausted,
    }
}

} // verus!
