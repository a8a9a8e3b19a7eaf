//! Per-file work of a sync run: content hashes and the counters of what was done.

use vstd::prelude::*;

use crate::sync::diff::ActionView;
use crate::text::{chars_of, hex_padded, push_char, push_hex_padded};

verus! {

/// Counters of one sync run.
pub struct SyncStats {
    pub files_copied: u64,
    pub files_deleted: u64,
    pub bytes_transferred: u64,
    pub errors: Vec<String>,
}

impl Default for SyncStats {
    /// Nothing copied, deleted or transferred, no errors.
    fn default() -> (s: Self)
        ensures
            s.files_copied == 0,
            s.files_deleted == 0,
            s.bytes_transferred == 0,
            s.errors@.len() == 0,
    {
        SyncStats { files_copied: 0, files_deleted: 0, bytes_transferred: 0, errors: Vec::new() }
    }
}

/// The value of `xxhash_rust::xxh3::xxh3_64` (XXH3, 64 bits, seed 0) on the bytes.
pub uninterp spec fn xxh3_64_of(data: Seq<u8>) -> u64;

/// Calls `xxhash_rust::xxh3::xxh3_64`; its result depends on the bytes alone.
#[verifier::external_body]
fn xxh3_64(data: &[u8]) -> (h: u64)
    ensures
        h == xxh3_64_of(data@),
{
    xxhash_rust::xxh3::xxh3_64(data)
}

/// The content hash of a file's bytes: XXH3-64 as 16 lowercase hexadecimal digits.
pub fn hash_bytes(data: &[u8]) -> (s: String)
    ensures
        s@ == hex_padded(xxh3_64_of(data@) as nat, 16),
{
    let h = xxh3_64(data);
    let mut s = String::new();
    push_hex_padded(&mut s, h, 16);
    assert(Seq::<char>::empty() + hex_padded(h as nat, 16) =~= hex_padded(h as nat, 16));
    s
}

/// `s` with every `/` replaced by `sep`.
pub open spec fn with_separator(s: Seq<char>, sep: char) -> Seq<char> {
    s.map_values(|c: char| if c == '/' { sep } else { c })
}

/// Turns an index path (with `/` separators) into one with the platform separator.
pub fn to_native_path(relative_path: &str, sep: char) -> (r: String)
    ensures
        r@ == with_separator(relative_path@, sep),
{
    let cs = chars_of(relative_path);
    let mut r = String::new();
    for i in 0..cs.len()
        invariant
            cs@ == relative_path@,
            r@ == with_separator(relative_path@.take(i as int), sep),
    {
        let c = cs[i];
        let d = if c == '/' { sep } else { c };
        push_char(&mut r, d);
        assert(with_separator(relative_path@.take(i + 1), sep) =~= with_separator(relative_path@.take(i as int), sep).push(d));
    }
    assert(relative_path@.take(cs@.len() as int) =~= relative_path@);
    r
}

/// What came of carrying out one sync action.
pub enum ActionOutcome {
    /// The file was copied to the target, `bytes` long.
    Copied { bytes: u64 },
    /// The file's content hash was unchanged: only its metadata was refreshed.
    MetadataOnly,
    /// Copying failed with this message.
    CopyFailed { error: String },
    /// The file was dropped from the index; removing it from the target failed
    /// with the message, if any.
    Deleted { failure: Option<String> },
}

/// The counters cannot overflow when this outcome is recorded.
pub open spec fn can_record(s: SyncStats, outcome: ActionOutcome) -> bool {
    match outcome {
        ActionOutcome::Copied { bytes } => s.files_copied < u64::MAX && s.bytes_transferred + bytes <= u64::MAX,
        ActionOutcome::Deleted { .. } => s.files_deleted < u64::MAX,
        _ => true,
    }
}

impl SyncStats {
    /// Counts one outcome: a copy adds one file and its bytes, a deletion adds one
    /// file, a failure adds its message to the errors; a metadata refresh counts nothing.
    pub fn record(&mut self, outcome: ActionOutcome)
        requires
            can_record(*old(self), outcome),
        ensures
            stats_view(*final(self)) == stats_step(stats_view(*old(self)), outcome),
            match outcome {
                ActionOutcome::Copied { bytes } => {
                    &&& final(self).files_copied == old(self).files_copied + 1
                    &&& final(self).bytes_transferred == old(self).bytes_transferred + bytes
                    &&& final(self).files_deleted == old(self).files_deleted
                    &&& final(self).errors@ == old(self).errors@
                },
                ActionOutcome::MetadataOnly => *final(self) == *old(self),
                ActionOutcome::CopyFailed { error } => {
                    &&& final(self).files_copied == old(self).files_copied
                    &&& final(self).bytes_transferred == old(self).bytes_transferred
                    &&& final(self).files_deleted == old(self).files_deleted
                    &&& final(self).errors@ == old(self).errors@.push(error)
                },
                ActionOutcome::Deleted { failure } => {
                    &&& final(self).files_copied == old(self).files_copied
                    &&& final(self).bytes_transferred == old(self).bytes_transferred
                    &&& final(self).files_deleted == old(self).files_deleted + 1
                    &&& final(self).errors@ == match failure {
                        Some(e) => old(self).errors@.push(e),
                        None => old(self).errors@,
                    }
                },
            },
    {
        match outcome {
            ActionOutcome::Copied { bytes } => {
                self.files_copied = self.files_copied + 1;
                self.bytes_transferred = self.bytes_transferred + bytes;
            },
            ActionOutcome::MetadataOnly => {},
            ActionOutcome::CopyFailed { error } => {
                self.errors.push(error);
            },
            ActionOutcome::Deleted { failure } => {
                if let Some(e) = failure {
                    self.errors.push(e);
                }
                self.files_deleted = self.files_deleted + 1;
            },
        }
    }
}

/// Whether a changed file must be copied again: its content hash differs from the
/// stored one (otherwise only its metadata is refreshed).
pub fn needs_copy(new_hash: &String, stored_hash: &String) -> (b: bool)
    ensures
        b == (new_hash@ != stored_hash@),
{
    !(*new_hash == *stored_hash)
}

/// The counters as numbers: files copied, files deleted, bytes transferred, errors.
pub open spec fn stats_view(s: SyncStats) -> (int, int, int, Seq<String>) {
    (s.files_copied as int, s.files_deleted as int, s.bytes_transferred as int, s.errors@)
}

/// The counters after one outcome, as `SyncStats::record` leaves them.
pub open spec fn stats_step(v: (int, int, int, Seq<String>), o: ActionOutcome) -> (int, int, int, Seq<String>) {
    match o {
        ActionOutcome::Copied { bytes } => (v.0 + 1, v.1, v.2 + bytes, v.3),
        ActionOutcome::MetadataOnly => v,
        ActionOutcome::CopyFailed { error } => (v.0, v.1, v.2, v.3.push(error)),
        ActionOutcome::Deleted { failure } => (v.0, v.1 + 1, v.2, match failure {
            Some(e) => v.3.push(e),
            None => v.3,
        }),
    }
}

/// The counters after recording the outcomes in order, from `v`.
pub open spec fn stats_after(v: (int, int, int, Seq<String>), os: Seq<ActionOutcome>) -> (int, int, int, Seq<String>)
    decreases os.len(),
{
    if os.len() == 0 { v } else { stats_step(stats_after(v, os.drop_last()), os.last()) }
}

/// Number of copies among the outcomes.
pub open spec fn copies(os: Seq<ActionOutcome>) -> int
    decreases os.len(),
{
    if os.len() == 0 { 0 } else { copies(os.drop_last()) + if os.last() is Copied { 1int } else { 0int } }
}

/// Number of deletions among the outcomes.
pub open spec fn deletions(os: Seq<ActionOutcome>) -> int
    decreases os.len(),
{
    if os.len() == 0 { 0 } else { deletions(os.drop_last()) + if os.last() is Deleted { 1int } else { 0int } }
}

/// Bytes of all copies among the outcomes.
pub open spec fn copied_bytes(os: Seq<ActionOutcome>) -> int
    decreases os.len(),
{
    if os.len() == 0 {
        0
    } else {
        copied_bytes(os.drop_last()) + match os.last() {
            ActionOutcome::Copied { bytes } => bytes as int,
            _ => 0int,
        }
    }
}

/// The messages of the failed copies and failed removals, in order.
pub open spec fn failures(os: Seq<ActionOutcome>) -> Seq<String>
    decreases os.len(),
{
    if os.len() == 0 {
        Seq::empty()
    } else {
        match os.last() {
            ActionOutcome::CopyFailed { error } => failures(os.drop_last()).push(error),
            ActionOutcome::Deleted { failure: Some(e) } => failures(os.drop_last()).push(e),
            _ => failures(os.drop_last()),
        }
    }
}

/// Law: recording a run's outcomes from empty counters yields the number of copies,
/// the number of deletions, the bytes of the copies and the failure messages in
/// order; metadata refreshes count nothing.
pub proof fn law_stats_tally(os: Seq<ActionOutcome>)
    ensures
        stats_after((0, 0, 0, Seq::empty()), os) == (copies(os), deletions(os), copied_bytes(os), failures(os)),
    decreases os.len(),
{
    if os.len() > 0 {
        law_stats_tally(os.drop_last());
    }
}

/// `o` is an outcome that carrying out `a` can have: an addition is copied or
/// fails to copy; an update is copied, refreshed in metadata only, or fails to
/// copy; a deletion is counted as a deletion, whether or not removing the file
/// failed.
pub open spec fn outcome_of(a: ActionView, o: ActionOutcome) -> bool {
    match a {
        ActionView::Add { .. } => o is Copied || o is CopyFailed,
        ActionView::Update { .. } => o is Copied || o is MetadataOnly || o is CopyFailed,
        ActionView::Delete { .. } => o is Deleted,
    }
}

/// Number of `Delete` actions.
pub open spec fn delete_actions(acts: Seq<ActionView>) -> int
    decreases acts.len(),
{
    if acts.len() == 0 { 0 } else { delete_actions(acts.drop_last()) + if acts.last() is Delete { 1int } else { 0int } }
}

/// Number of `Add` and `Update` actions.
pub open spec fn copy_actions(acts: Seq<ActionView>) -> int
    decreases acts.len(),
{
    if acts.len() == 0 { 0 } else { copy_actions(acts.drop_last()) + if acts.last() is Delete { 0int } else { 1int } }
}

/// The run's counters follow its diff: when each action's outcome is recorded,
/// the files deleted are exactly the `Delete` actions, and the files copied are
/// at most the `Add` and `Update` actions (fewer by the failed copies and the
/// updates that only refreshed metadata).
pub proof fn law_counters_follow_actions(acts: Seq<ActionView>, os: Seq<ActionOutcome>)
    requires
        acts.len() == os.len(),
        forall|i: int| 0 <= i < acts.len() ==> outcome_of(#[trigger] acts[i], os[i]),
    ensures
        stats_after((0, 0, 0, Seq::empty()), os).1 == delete_actions(acts),
        stats_after((0, 0, 0, Seq::empty()), os).0 <= copy_actions(acts),
        stats_after((0, 0, 0, Seq::empty()), os).0 == copies(os),
    decreases acts.len(),
{
    law_stats_tally(os);
    if acts.len() > 0 {
        let ra = acts.drop_last();
        let ro = os.drop_last();
        assert forall|i: int| 0 <= i < ra.len() implies outcome_of(#[trigger] ra[i], ro[i]) by {
            assert(ra[i] == acts[i] && ro[i] == os[i]);
        }
        law_counters_follow_actions(ra, ro);
        law_stats_tally(ro);
        assert(outcome_of(acts[acts.len() - 1], os[os.len() - 1]));
    }
}

} // verus!
