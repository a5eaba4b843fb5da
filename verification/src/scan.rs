//! Deciding which of the files found under the given paths are compressed
//! and why the others are skipped.
use vstd::prelude::*;
use vstd::string::StringExecFns;

use crate::config::RunConfig;
use crate::error::ShrinkError;
use crate::keys::is_lower_hex_digit;
use crate::text::{
    extension_of, file_name_of, has_prefix, lowercase, path_extension, path_file_name,
    starts_with, text_in, unicode_lowercase,
};

verus! {

/// A file to compress, with the identifier of its compression.
#[derive(Debug, Clone)]
pub struct FileTask {
    pub uuid: String,
    pub path: String,
    pub original_size: u64,
}

/// Why a file is not compressed.
#[derive(Debug, Clone, Copy, PartialEq, Eq, Structural)]
pub enum SkipReason {
    BelowMinSize,
    AlreadyCompressed,
    UnsupportedExtension,
}

/// A file found by a scan: either to compress or skipped.
#[derive(Debug, Clone)]
pub enum ScanEntry {
    Task(FileTask),
    Skipped { path: String, reason: SkipReason, original_size: u64 },
}

/// A regular file found under a path, with its size in bytes.
#[derive(Debug, Clone)]
pub struct FoundFile {
    pub path: String,
    pub size: u64,
}

/// What listing one given path found: whether it exists, the regular
/// files found under it in walk order (the path itself when it is a
/// file), and the error that stopped the listing, if one did.
#[derive(Debug, Clone)]
pub struct PathListing {
    pub path: String,
    pub exists: bool,
    pub files: Vec<FoundFile>,
    pub error: Option<ShrinkError>,
}

/// The text form of a version 4 UUID: 36 characters, hyphens at positions
/// 8, 13, 18 and 23, lowercase hexadecimal digits elsewhere, the version
/// digit `4` at position 14 and a variant digit `8`, `9`, `a` or `b` at 19.
pub open spec fn is_uuid_v4_text(u: Seq<char>) -> bool {
    &&& u.len() == 36
    &&& forall|i: int|
        0 <= i < 36 ==> if i == 8 || i == 13 || i == 18 || i == 23 {
            #[trigger] u[i] == '-'
        } else {
            is_lower_hex_digit(u[i])
        }
    &&& u[14] == '4'
    &&& (u[19] == '8' || u[19] == '9' || u[19] == 'a' || u[19] == 'b')
}

/// Calls `uuid::Uuid::new_v4` and renders it with `to_string`. The value is
/// random, so only its form is stated: the hyphenated lowercase text of a
/// version 4, RFC 4122 variant UUID (the crate's `new_v4` sets those bits
/// and its `Display` writes that form).
#[verifier::external_body]
fn new_uuid() -> (u: String)
    ensures
        is_uuid_v4_text(u@),
{
    uuid::Uuid::new_v4().to_string()
}

/// The lowercased extension of a path's file name, empty when it has none.
pub open spec fn extension_key(path: Seq<char>) -> Seq<char> {
    match path_extension(path) {
        Some(e) => unicode_lowercase(e),
        None => Seq::empty(),
    }
}

/// The file name of a path, empty when it has none.
pub open spec fn file_name_text(path: Seq<char>) -> Seq<char> {
    match path_file_name(path) {
        Some(n) => n,
        None => Seq::empty(),
    }
}

/// Why the file `path` of `size` bytes is skipped under `cfg`, if it is:
/// first an extension not in the list, then (when `compressed_*` files are
/// skipped) a file name starting with `compressed_`, then a size below the
/// minimum.
pub open spec fn skip_reason(path: Seq<char>, size: u64, cfg: RunConfig) -> Option<SkipReason> {
    if !text_in(cfg.extensions@, extension_key(path)) {
        Some(SkipReason::UnsupportedExtension)
    } else if cfg.skip_compressed && has_prefix(file_name_text(path), "compressed_"@) {
        Some(SkipReason::AlreadyCompressed)
    } else if size < cfg.min_size {
        Some(SkipReason::BelowMinSize)
    } else {
        None
    }
}

/// An entry as a plain value: its path, size and skip reason.
pub open spec fn entry_view(e: ScanEntry) -> (Seq<char>, u64, Option<SkipReason>) {
    match e {
        ScanEntry::Task(t) => (t.path@, t.original_size, None),
        ScanEntry::Skipped { path, reason, original_size } => (path@, original_size, Some(reason)),
    }
}

/// Task entries carry a fresh UUID.
pub open spec fn entry_well_formed(e: ScanEntry) -> bool {
    match e {
        ScanEntry::Task(t) => is_uuid_v4_text(t.uuid@),
        _ => true,
    }
}

fn skip_reason_of(path: &str, size: u64, cfg: &RunConfig) -> (r: Option<SkipReason>)
    ensures
        r == skip_reason(path@, size, *cfg),
{
    let ext = match extension_of(path) {
        Some(e) => lowercase(e.as_str()),
        None => String::new(),
    };
    if !cfg.has_extension(ext.as_str()) {
        return Some(SkipReason::UnsupportedExtension);
    }
    let name = match file_name_of(path) {
        Some(n) => n,
        None => String::new(),
    };
    if cfg.skip_compressed && starts_with(name.as_str(), "compressed_") {
        return Some(SkipReason::AlreadyCompressed);
    }
    if size < cfg.min_size {
        return Some(SkipReason::BelowMinSize);
    }
    None
}

/// Classifies the file `path` of `size` bytes and appends its entry.
pub fn push_file(path: &str, size: u64, cfg: &RunConfig, out: &mut Vec<ScanEntry>)
    ensures
        final(out)@.len() == old(out)@.len() + 1,
        final(out)@.drop_last() == old(out)@,
        entry_view(final(out)@.last()) == (path@, size, skip_reason(path@, size, *cfg)),
        entry_well_formed(final(out)@.last()),
        !text_in(cfg.extensions@, extension_key(path@)) ==> entry_view(final(out)@.last()).2 == Some(
            SkipReason::UnsupportedExtension,
        ),
        text_in(cfg.extensions@, extension_key(path@)) && cfg.skip_compressed && has_prefix(
            file_name_text(path@),
            "compressed_"@,
        ) ==> entry_view(final(out)@.last()).2 == Some(SkipReason::AlreadyCompressed),
        text_in(cfg.extensions@, extension_key(path@)) && !(cfg.skip_compressed && has_prefix(
            file_name_text(path@),
            "compressed_"@,
        )) ==> entry_view(final(out)@.last()).2 == if size < cfg.min_size {
            Some(SkipReason::BelowMinSize)
        } else {
            None
        },
{
    match skip_reason_of(path, size, cfg) {
        Some(reason) => out.push(
            ScanEntry::Skipped { path: String::from_str(path), reason, original_size: size },
        ),
        None => out.push(
            ScanEntry::Task(
                FileTask { uuid: new_uuid(), path: String::from_str(path), original_size: size },
            ),
        ),
    }
    proof {
        assert(out@.drop_last() =~= old(out)@);
    }
}

/// How a scan of the listings ends: the entries of every file in order, or
/// the first failure (a path that does not exist, or a listing error).
pub enum ScanFailure {
    Missing(Seq<char>),
    Listing(ShrinkError),
}

pub open spec fn found_views(files: Seq<FoundFile>, cfg: RunConfig) -> Seq<(Seq<char>, u64, Option<SkipReason>)> {
    files.map_values(|f: FoundFile| (f.path@, f.size, skip_reason(f.path@, f.size, cfg)))
}

/// The outcome of scanning `listings` in order.
pub open spec fn scan_outcome(listings: Seq<PathListing>, cfg: RunConfig) -> Result<
    Seq<(Seq<char>, u64, Option<SkipReason>)>,
    ScanFailure,
>
    decreases listings.len(),
{
    if listings.len() == 0 {
        Ok(Seq::empty())
    } else {
        match scan_outcome(listings.drop_last(), cfg) {
            Err(f) => Err(f),
            Ok(prev) => {
                let l = listings.last();
                if !l.exists {
                    Err(ScanFailure::Missing(l.path@))
                } else {
                    match l.error {
                        Some(e) => Err(ScanFailure::Listing(e)),
                        None => Ok(prev + found_views(l.files@, cfg)),
                    }
                }
            },
        }
    }
}

/// `r` is the scan outcome `o`.
pub open spec fn scan_result_is(r: Result<Vec<ScanEntry>, ShrinkError>, o: Result<Seq<(Seq<char>, u64, Option<SkipReason>)>, ScanFailure>) -> bool {
    match o {
        Ok(views) => match r {
            Ok(entries) => entries@.map_values(|e: ScanEntry| entry_view(e)) == views && forall|i: int|
                0 <= i < entries@.len() ==> entry_well_formed(#[trigger] entries@[i]),
            Err(_) => false,
        },
        Err(ScanFailure::Missing(p)) => match r {
            Err(ShrinkError::BadArgument(m)) => m@ == "path does not exist: "@ + p,
            _ => false,
        },
        Err(ScanFailure::Listing(e)) => r == Err::<Vec<ScanEntry>, ShrinkError>(e),
    }
}

/// Classifies every file found under the given paths, in order. Fails on
/// the first path that does not exist (naming it) or, failing that, with
/// the first error that stopped a listing; nothing is returned of the
/// files classified before the failure.
pub fn scan_with_skips(listings: &[PathListing], cfg: &RunConfig) -> (r: Result<Vec<ScanEntry>, ShrinkError>)
    ensures
        scan_result_is(r, scan_outcome(listings@, *cfg)),
{
    let mut out: Vec<ScanEntry> = Vec::new();
    let mut i: usize = 0;
    proof {
        assert(listings@.take(0) =~= Seq::<PathListing>::empty());
        assert(out@.map_values(|e: ScanEntry| entry_view(e)) =~= Seq::<(Seq<char>, u64, Option<SkipReason>)>::empty());
    }
    while i < listings.len()
        invariant
            i <= listings@.len(),
            scan_outcome(listings@.take(i as int), *cfg) == Ok::<Seq<(Seq<char>, u64, Option<SkipReason>)>, ScanFailure>(
                out@.map_values(|e: ScanEntry| entry_view(e)),
            ),
            forall|k: int| 0 <= k < out@.len() ==> entry_well_formed(#[trigger] out@[k]),
        decreases listings@.len() - i,
    {
        let l = &listings[i];
        proof {
            assert(listings@.take(i + 1).drop_last() =~= listings@.take(i as int));
            assert(listings@.take(i + 1).last() == listings@[i as int]);
        }
        if !l.exists {
            let mut m = String::from_str("path does not exist: ");
            m.append(l.path.as_str());
            proof {
                lemma_scan_failure_sticks(listings@, (i + 1) as int, *cfg);
            }
            return Err(ShrinkError::BadArgument(m));
        }
        let ghost before = out@;
        let mut j: usize = 0;
        proof {
            assert(l.files@.take(0) =~= Seq::<FoundFile>::empty());
            assert(found_views(l.files@.take(0), *cfg) =~= Seq::<(Seq<char>, u64, Option<SkipReason>)>::empty());
            assert(before.map_values(|e: ScanEntry| entry_view(e)) + found_views(l.files@.take(0), *cfg)
                =~= before.map_values(|e: ScanEntry| entry_view(e)));
            assert(out@.take(before.len() as int) =~= before);
        }
        while j < l.files.len()
            invariant
                j <= l.files@.len(),
                out@.len() == before.len() + j,
                out@.take(before.len() as int) == before,
                out@.map_values(|e: ScanEntry| entry_view(e)) == before.map_values(|e: ScanEntry| entry_view(e))
                    + found_views(l.files@.take(j as int), *cfg),
                forall|k: int| 0 <= k < out@.len() ==> entry_well_formed(#[trigger] out@[k]),
            decreases l.files@.len() - j,
        {
            let ghost prev = out@;
            push_file(l.files[j].path.as_str(), l.files[j].size, cfg, &mut out);
            proof {
                assert(l.files@.take(j + 1) =~= l.files@.take(j as int).push(l.files@[j as int]));
                assert(found_views(l.files@.take(j + 1), *cfg) =~= found_views(l.files@.take(j as int), *cfg).push(
                    entry_view(out@.last()),
                ));
                assert(out@ =~= prev.push(out@.last()));
                assert(out@.map_values(|e: ScanEntry| entry_view(e)) =~= prev.map_values(|e: ScanEntry| entry_view(e)).push(
                    entry_view(out@.last()),
                ));
                assert(out@.take(before.len() as int) =~= prev.take(before.len() as int));
                assert forall|k: int| 0 <= k < out@.len() implies entry_well_formed(#[trigger] out@[k]) by {
                    if k < prev.len() {
                        assert(out@[k] == prev[k]);
                    }
                }
            }
            j = j + 1;
        }
        proof {
            assert(l.files@.take(l.files@.len() as int) =~= l.files@);
        }
        match &l.error {
            Some(e) => {
                proof {
                    lemma_scan_failure_sticks(listings@, (i + 1) as int, *cfg);
                }
                return Err(e.clone_error());
            },
            None => {},
        }
        i = i + 1;
    }
    proof {
        assert(listings@.take(listings@.len() as int) =~= listings@);
    }
    Ok(out)
}

proof fn lemma_scan_failure_sticks(listings: Seq<PathListing>, k: int, cfg: RunConfig)
    requires
        0 < k <= listings.len(),
        scan_outcome(listings.take(k), cfg) is Err,
    ensures
        scan_outcome(listings, cfg) == scan_outcome(listings.take(k), cfg),
    decreases listings.len() - k,
{
    if k < listings.len() {
        assert(listings.take(k + 1).drop_last() =~= listings.take(k));
        lemma_scan_failure_sticks(listings, k + 1, cfg);
    } else {
        assert(listings.take(k) =~= listings);
    }
}

} // verus!

verus! {

/// The tasks among `entries`, in order.
pub open spec fn tasks_of(entries: Seq<ScanEntry>) -> Seq<FileTask>
    decreases entries.len(),
{
    if entries.len() == 0 {
        Seq::empty()
    } else {
        let rest = tasks_of(entries.drop_last());
        match entries.last() {
            ScanEntry::Task(t) => rest.push(t),
            _ => rest,
        }
    }
}

/// The skipped files among `entries`, in order, with their reasons.
pub open spec fn skips_of(entries: Seq<ScanEntry>) -> Seq<(String, SkipReason, u64)>
    decreases entries.len(),
{
    if entries.len() == 0 {
        Seq::empty()
    } else {
        let rest = skips_of(entries.drop_last());
        match entries.last() {
            ScanEntry::Skipped { path, reason, original_size } => rest.push((path, reason, original_size)),
            _ => rest,
        }
    }
}

/// The entries to compress, as path and size, among scan views.
pub open spec fn task_views(views: Seq<(Seq<char>, u64, Option<SkipReason>)>) -> Seq<(Seq<char>, u64)>
    decreases views.len(),
{
    if views.len() == 0 {
        Seq::empty()
    } else {
        let rest = task_views(views.drop_last());
        if views.last().2 is None {
            rest.push((views.last().0, views.last().1))
        } else {
            rest
        }
    }
}

/// Splits scan entries into the tasks and the skipped files, keeping the
/// order of each.
pub fn split_entries(entries: Vec<ScanEntry>) -> (r: (Vec<FileTask>, Vec<(String, SkipReason, u64)>))
    ensures
        r.0@ == tasks_of(entries@),
        r.1@ == skips_of(entries@),
{
    let mut tasks: Vec<FileTask> = Vec::new();
    let mut skipped: Vec<(String, SkipReason, u64)> = Vec::new();
    let ghost all = entries@;
    let mut rest = entries;
    let mut taken: Vec<ScanEntry> = Vec::new();
    let mut i: usize = 0;
    let n = rest.len();
    while i < n
        invariant
            i <= n == all.len(),
            rest@ == all,
            tasks@ == tasks_of(all.take(i as int)),
            skipped@ == skips_of(all.take(i as int)),
        decreases n - i,
    {
        proof {
            assert(all.take(i + 1).drop_last() =~= all.take(i as int));
        }
        match &rest[i] {
            ScanEntry::Task(t) => tasks.push(
                FileTask { uuid: t.uuid.clone(), path: t.path.clone(), original_size: t.original_size },
            ),
            ScanEntry::Skipped { path, reason, original_size } => skipped.push(
                (path.clone(), *reason, *original_size),
            ),
        }
        i = i + 1;
    }
    proof {
        assert(all.take(n as int) =~= all);
    }
    (tasks, skipped)
}

proof fn lemma_task_views(entries: Seq<ScanEntry>)
    ensures
        tasks_of(entries).map_values(|t: FileTask| (t.path@, t.original_size)) == task_views(
            entries.map_values(|e: ScanEntry| entry_view(e)),
        ),
    decreases entries.len(),
{
    if entries.len() > 0 {
        lemma_task_views(entries.drop_last());
        assert(entries.map_values(|e: ScanEntry| entry_view(e)).drop_last() =~= entries.drop_last().map_values(
            |e: ScanEntry| entry_view(e),
        ));
        let prev = tasks_of(entries.drop_last());
        match entries.last() {
            ScanEntry::Task(t) => {
                assert(prev.push(t).map_values(|t: FileTask| (t.path@, t.original_size)) =~= prev.map_values(
                    |t: FileTask| (t.path@, t.original_size),
                ).push((t.path@, t.original_size)));
            },
            _ => {},
        }
    } else {
        assert(tasks_of(entries).map_values(|t: FileTask| (t.path@, t.original_size)) =~= Seq::<(Seq<char>, u64)>::empty());
    }
}

/// The files to compress under the given paths: the task entries of
/// [`scan_with_skips`], in order, with the same failures.
pub fn scan_paths(listings: &[PathListing], cfg: &RunConfig) -> (r: Result<Vec<FileTask>, ShrinkError>)
    ensures
        match scan_outcome(listings@, *cfg) {
            Ok(views) => r matches Ok(tasks) && tasks@.map_values(|t: FileTask| (t.path@, t.original_size))
                == task_views(views) && forall|i: int| 0 <= i < tasks@.len() ==> is_uuid_v4_text(#[trigger] tasks@[i].uuid@),
            Err(ScanFailure::Missing(p)) => r matches Err(ShrinkError::BadArgument(m)) && m@
                == "path does not exist: "@ + p,
            Err(ScanFailure::Listing(e)) => r == Err::<Vec<FileTask>, ShrinkError>(e),
        },
{
    match scan_with_skips(listings, cfg) {
        Ok(entries) => {
            let ghost es = entries@;
            let (tasks, _skipped) = split_entries(entries);
            proof {
                lemma_task_views(es);
                lemma_tasks_well_formed(es);
            }
            Ok(tasks)
        },
        Err(e) => Err(e),
    }
}

proof fn lemma_tasks_well_formed(entries: Seq<ScanEntry>)
    requires
        forall|i: int| 0 <= i < entries.len() ==> entry_well_formed(#[trigger] entries[i]),
    ensures
        forall|i: int| 0 <= i < tasks_of(entries).len() ==> is_uuid_v4_text(#[trigger] tasks_of(entries)[i].uuid@),
    decreases entries.len(),
{
    if entries.len() > 0 {
        let p = entries.drop_last();
        assert forall|i: int| 0 <= i < p.len() implies entry_well_formed(#[trigger] p[i]) by {
            assert(p[i] == entries[i]);
        }
        lemma_tasks_well_formed(p);
        assert(entry_well_formed(entries[entries.len() - 1]));
        let prev = tasks_of(p);
        assert forall|i: int| 0 <= i < tasks_of(entries).len() implies is_uuid_v4_text(
            #[trigger] tasks_of(entries)[i].uuid@,
        ) by {
            if i < prev.len() {
                assert(tasks_of(entries)[i] == prev[i]);
            }
        }
    }
}

} // verus!

verus! {

/// The reasons come in a fixed order: an extension that is not listed is
/// reported as such whatever the name and size; a listed one whose file
/// name starts with `compressed_` (while such files are skipped) is
/// reported as already compressed whatever its size; only then is a file
/// below the minimum size reported as too small.
pub proof fn law_skip_reason_priority(path: Seq<char>, size: u64, cfg: RunConfig)
    ensures
        !text_in(cfg.extensions@, extension_key(path)) ==> skip_reason(path, size, cfg) == Some(
            SkipReason::UnsupportedExtension,
        ),
        text_in(cfg.extensions@, extension_key(path)) && cfg.skip_compressed && has_prefix(
            file_name_text(path),
            "compressed_"@,
        ) ==> skip_reason(path, size, cfg) == Some(SkipReason::AlreadyCompressed),
        skip_reason(path, size, cfg) == Some(SkipReason::BelowMinSize) ==> size < cfg.min_size
            && text_in(cfg.extensions@, extension_key(path)) && !(cfg.skip_compressed && has_prefix(
            file_name_text(path),
            "compressed_"@,
        )),
{
}

/// A file is compressed exactly when it passes every filter: its
/// extension is in the list, its name does not start with `compressed_`
/// (when such files are skipped), and it is not below the minimum size.
pub proof fn law_compressed_files_pass_filters(path: Seq<char>, size: u64, cfg: RunConfig)
    ensures
        (skip_reason(path, size, cfg) is None) <==> (text_in(cfg.extensions@, extension_key(path))
            && !(cfg.skip_compressed && has_prefix(file_name_text(path), "compressed_"@)) && size
            >= cfg.min_size),
{
}

} // verus!
