//! The content fingerprint of the package being edited: its most recently
//! modified tracked source file.
use crate::bytes::{bytes_eq, copy_bytes};
use crate::digest::{lemma_le_bytes_injective, lemma_le_bytes_len, radix, u64_bytes};
use vstd::prelude::*;

verus! {

/// A modification time: whole seconds from the epoch, then nanoseconds.
#[derive(Clone, Copy, Debug, PartialEq, Eq, Structural)]
pub struct FileStamp {
    pub seconds: i64,
    pub nanos: u32,
}

/// One file that the package manager tracks for a package.
pub struct TrackedFile {
    pub path: Vec<u8>,
    /// The file name's extension, if it has one.
    pub extension: Option<Vec<u8>>,
    pub modified: FileStamp,
}

/// The most recently modified tracked file and its modification time.
pub struct RootFingerprint {
    pub modified: FileStamp,
    pub path: Vec<u8>,
}

/// The fingerprint as a value: modification time and path.
pub struct FingerprintModel {
    pub modified: FileStamp,
    pub path: Seq<u8>,
}

impl View for RootFingerprint {
    type V = FingerprintModel;

    open spec fn view(&self) -> FingerprintModel {
        FingerprintModel { modified: self.modified, path: self.path@ }
    }
}

/// The epoch itself.
pub open spec fn zero_stamp() -> FileStamp {
    FileStamp { seconds: 0, nanos: 0 }
}

/// `a` is strictly later than `b`.
pub open spec fn stamp_later(a: FileStamp, b: FileStamp) -> bool {
    a.seconds > b.seconds || (a.seconds == b.seconds && a.nanos > b.nanos)
}

/// Extensions of compiled, binary or stub files, which cannot change how a
/// type is compiled: `pyd`, `pyc`, `pyi`, `so` and `dylib`.
pub open spec fn excluded_extension(ext: Seq<u8>) -> bool {
    ||| ext == seq![112u8, 121u8, 100u8]
    ||| ext == seq![112u8, 121u8, 99u8]
    ||| ext == seq![112u8, 121u8, 105u8]
    ||| ext == seq![115u8, 111u8]
    ||| ext == seq![100u8, 121u8, 108u8, 105u8, 98u8]
}

/// The file takes no part in the fingerprint.
pub open spec fn file_excluded(f: TrackedFile) -> bool {
    match f.extension {
        Some(e) => excluded_extension(e@),
        None => false,
    }
}

/// The latest modification among the files that are not excluded, with the
/// first such file's path where several share it; the epoch and an empty
/// path where no file is later than the epoch.
pub open spec fn latest_file(files: Seq<TrackedFile>) -> FingerprintModel
    decreases files.len(),
{
    if files.len() == 0 {
        FingerprintModel { modified: zero_stamp(), path: seq![] }
    } else {
        let best = latest_file(files.drop_last());
        let f = files.last();
        if !file_excluded(f) && stamp_later(f.modified, best.modified) {
            FingerprintModel { modified: f.modified, path: f.path@ }
        } else {
            best
        }
    }
}

/// The bytes that stand for a fingerprint in a state tag: the seconds
/// shifted to be non-negative, the nanoseconds, then the path.
pub open spec fn fingerprint_bytes(fp: FingerprintModel) -> Seq<u8> {
    u64_bytes((fp.modified.seconds + 0x8000_0000_0000_0000) as nat) + u64_bytes(
        fp.modified.nanos as nat,
    ) + fp.path
}

/// Whether `ext` is one of the excluded extensions.
pub fn is_excluded_extension(ext: &Vec<u8>) -> (r: bool)
    ensures
        r == excluded_extension(ext@),
{
    let pyd: [u8; 3] = [112u8, 121u8, 100u8];
    let pyc: [u8; 3] = [112u8, 121u8, 99u8];
    let pyi: [u8; 3] = [112u8, 121u8, 105u8];
    let so: [u8; 2] = [115u8, 111u8];
    let dylib: [u8; 5] = [100u8, 121u8, 108u8, 105u8, 98u8];
    let e = ext.as_slice();
    let r = bytes_eq(e, pyd.as_slice()) || bytes_eq(e, pyc.as_slice()) || bytes_eq(e, pyi.as_slice())
        || bytes_eq(e, so.as_slice()) || bytes_eq(e, dylib.as_slice());
    proof {
        assert(pyd@ =~= seq![112u8, 121u8, 100u8]);
        assert(pyc@ =~= seq![112u8, 121u8, 99u8]);
        assert(pyi@ =~= seq![112u8, 121u8, 105u8]);
        assert(so@ =~= seq![115u8, 111u8]);
        assert(dylib@ =~= seq![100u8, 121u8, 108u8, 105u8, 98u8]);
    }
    r
}

/// Whether `a` is strictly later than `b`.
pub fn is_later(a: FileStamp, b: FileStamp) -> (r: bool)
    ensures
        r == stamp_later(a, b),
{
    a.seconds > b.seconds || (a.seconds == b.seconds && a.nanos > b.nanos)
}

/// The fingerprint of the package being edited: its most recently modified
/// tracked file that is not excluded by extension.
pub fn root_fingerprint(files: &Vec<TrackedFile>) -> (r: RootFingerprint)
    ensures
        r@ == latest_file(files@),
{
    let mut best = FileStamp { seconds: 0, nanos: 0 };
    let mut best_index: Option<usize> = None;
    let mut i: usize = 0;
    while i < files.len()
        invariant
            i <= files@.len(),
            best == latest_file(files@.subrange(0, i as int)).modified,
            match best_index {
                Some(k) => k < i && latest_file(files@.subrange(0, i as int)).path == files@[k as int].path@,
                None => latest_file(files@.subrange(0, i as int)).path == Seq::<u8>::empty(),
            },
        decreases files@.len() - i,
    {
        let f = &files[i];
        assert(files@.subrange(0, i + 1).drop_last() =~= files@.subrange(0, i as int));
        let excluded = match &f.extension {
            Some(e) => is_excluded_extension(e),
            None => false,
        };
        if !excluded && is_later(f.modified, best) {
            best = f.modified;
            best_index = Some(i);
        }
        i = i + 1;
    }
    assert(files@.subrange(0, i as int) =~= files@);
    let path = match best_index {
        Some(k) => copy_bytes(&files[k].path),
        None => Vec::new(),
    };
    RootFingerprint { modified: best, path }
}

/// Appends the bytes that stand for `fp` in a state tag.
pub fn push_fingerprint(out: &mut Vec<u8>, fp: &RootFingerprint)
    ensures
        final(out)@ == old(out)@ + fingerprint_bytes(fp@),
{
    let biased: u64 = (fp.modified.seconds as i128 + 0x8000_0000_0000_0000i128) as u64;
    crate::digest::push_u64(out, biased);
    crate::digest::push_u64(out, fp.modified.nanos as u64);
    crate::bytes::append_bytes(out, fp.path.as_slice());
    assert(out@ =~= old(out)@ + fingerprint_bytes(fp@));
}

/// Distinct fingerprints have distinct bytes.
pub proof fn lemma_fingerprint_bytes_injective(a: FingerprintModel, b: FingerprintModel)
    requires
        a != b,
    ensures
        fingerprint_bytes(a) != fingerprint_bytes(b),
{
    let (x, y) = (fingerprint_bytes(a), fingerprint_bytes(b));
    let (sa, sb) = ((a.modified.seconds + 0x8000_0000_0000_0000) as nat, (b.modified.seconds + 0x8000_0000_0000_0000) as nat);
    lemma_le_bytes_len(sa, 8);
    lemma_le_bytes_len(sb, 8);
    lemma_le_bytes_len(a.modified.nanos as nat, 8);
    lemma_le_bytes_len(b.modified.nanos as nat, 8);
    if x == y {
        reveal_with_fuel(radix, 9);
        assert(x.subrange(0, 8) =~= u64_bytes(sa));
        assert(y.subrange(0, 8) =~= u64_bytes(sb));
        lemma_le_bytes_injective(sa, sb, 8);
        assert(x.subrange(8, 16) =~= u64_bytes(a.modified.nanos as nat));
        assert(y.subrange(8, 16) =~= u64_bytes(b.modified.nanos as nat));
        lemma_le_bytes_injective(a.modified.nanos as nat, b.modified.nanos as nat, 8);
        assert(x.subrange(16, x.len() as int) =~= a.path);
        assert(y.subrange(16, y.len() as int) =~= b.path);
        assert(a =~= b);
    }
}

/// The files that are not excluded, in order.
pub open spec fn kept_files(files: Seq<TrackedFile>) -> Seq<TrackedFile>
    decreases files.len(),
{
    if files.len() == 0 {
        seq![]
    } else if file_excluded(files.last()) {
        kept_files(files.drop_last())
    } else {
        kept_files(files.drop_last()).push(files.last())
    }
}

proof fn lemma_latest_of_kept(files: Seq<TrackedFile>)
    ensures
        latest_file(files) == latest_file(kept_files(files)),
    decreases files.len(),
{
    if files.len() > 0 {
        lemma_latest_of_kept(files.drop_last());
        if !file_excluded(files.last()) {
            let k = kept_files(files.drop_last()).push(files.last());
            assert(k.drop_last() =~= kept_files(files.drop_last()));
        }
    }
}

/// Adding, removing or editing excluded files leaves the fingerprint as it
/// was: two listings with the same files that are not excluded, in the same
/// order, have the same fingerprint.
pub proof fn lemma_excluded_files_ignored(before: Seq<TrackedFile>, after: Seq<TrackedFile>)
    requires
        kept_files(before) == kept_files(after),
    ensures
        latest_file(before) == latest_file(after),
{
    lemma_latest_of_kept(before);
    lemma_latest_of_kept(after);
}

/// Edits of excluded files alone leave the fingerprint as it was.
pub proof fn lemma_excluded_edits_ignored(before: Seq<TrackedFile>, after: Seq<TrackedFile>)
    requires
        before.len() == after.len(),
        forall|i: int|
            0 <= i < before.len() ==> (before[i] == after[i] || (file_excluded(before[i])
                && file_excluded(after[i]))),
    ensures
        latest_file(before) == latest_file(after),
    decreases before.len(),
{
    if before.len() > 0 {
        lemma_excluded_edits_ignored(before.drop_last(), after.drop_last());
    }
}

/// The fingerprint's time is the epoch or the time of some non-excluded file.
proof fn lemma_latest_is_some_file(files: Seq<TrackedFile>)
    ensures
        latest_file(files).modified == zero_stamp() || exists|i: int|
            0 <= i < files.len() && #[trigger] files[i].modified == latest_file(files).modified,
    decreases files.len(),
{
    if files.len() > 0 {
        lemma_latest_is_some_file(files.drop_last());
        let best = latest_file(files.drop_last());
        if best.modified != zero_stamp() && latest_file(files) == best {
            let i = choose|i: int| 0 <= i < files.len() - 1 && #[trigger] files.drop_last()[i].modified == best.modified;
            assert(files[i].modified == best.modified);
        }
        if latest_file(files) != best {
            assert(files[files.len() - 1].modified == latest_file(files).modified);
        }
    }
}

proof fn lemma_latest_after_touch(files: Seq<TrackedFile>, k: int, touched: TrackedFile)
    requires
        0 <= k < files.len(),
        !file_excluded(touched),
        stamp_later(touched.modified, zero_stamp()),
        forall|i: int| 0 <= i < files.len() ==> stamp_later(touched.modified, #[trigger] files[i].modified),
    ensures
        latest_file(files.update(k, touched)) == (FingerprintModel {
            modified: touched.modified,
            path: touched.path@,
        }),
    decreases files.len(),
{
    let after = files.update(k, touched);
    if k == files.len() - 1 {
        assert(after.drop_last() =~= files.drop_last());
        lemma_latest_is_some_file(files.drop_last());
        let best = latest_file(files.drop_last());
        if best.modified != zero_stamp() {
            let i = choose|i: int| 0 <= i < files.len() - 1 && #[trigger] files.drop_last()[i].modified == best.modified;
            assert(stamp_later(touched.modified, files[i].modified));
        }
    } else {
        assert(after.drop_last() =~= files.drop_last().update(k, touched));
        lemma_latest_after_touch(files.drop_last(), k, touched);
        assert(stamp_later(touched.modified, files[files.len() - 1].modified));
    }
}

/// Saving a tracked, non-excluded file, which makes it later than every
/// tracked file and than the epoch, changes the fingerprint: it becomes
/// that file's time and path.
pub proof fn lemma_edit_changes_fingerprint(files: Seq<TrackedFile>, k: int, edited: TrackedFile)
    requires
        0 <= k < files.len(),
        !file_excluded(edited),
        stamp_later(edited.modified, zero_stamp()),
        forall|i: int| 0 <= i < files.len() ==> stamp_later(edited.modified, #[trigger] files[i].modified),
    ensures
        latest_file(files.update(k, edited)) == (FingerprintModel {
            modified: edited.modified,
            path: edited.path@,
        }),
        latest_file(files.update(k, edited)) != latest_file(files),
{
    lemma_latest_after_touch(files, k, edited);
    lemma_latest_is_some_file(files);
    if latest_file(files).modified != zero_stamp() {
        let i = choose|i: int| 0 <= i < files.len() && #[trigger] files[i].modified == latest_file(files).modified;
        assert(stamp_later(edited.modified, files[i].modified));
    }
}

} // verus!
