//! Decisions of the store replicator and of the migration run.
use vstd::prelude::*;
use crate::decode::decode;
use crate::decode_spec::decoded;
use crate::encode::{enc, encode_native, Mode};
use crate::entry::{entry_fields, entry_header};
use crate::fields::{uint_of, uint_value};
use crate::term::{Term, TermModel};
use crate::walker::{decimal, decimal_bytes};

verus! {

/// Records per write batch.
pub const BATCH_SIZE: u64 = 1000;

/// The largest key that is copied (1 MiB).
pub const MAX_KEY_LEN: u64 = 1048576;

/// The largest value that is copied (256 MiB).
pub const MAX_VALUE_LEN: u64 = 268435456;

/// Consecutive failures (of a read or of a batch write) that abort a full copy.
pub const MAX_CONSECUTIVE_FAILURES: u64 = 10;

/// What becomes of one source record in a full copy.
#[derive(Clone, Copy, Debug, PartialEq, Eq, Structural)]
pub enum Verdict {
    Copy,
    KeyTooLarge,
    ValueTooLarge,
}

pub open spec fn verdict_of(key_len: nat, value_len: nat) -> Verdict {
    if key_len > MAX_KEY_LEN {
        Verdict::KeyTooLarge
    } else if value_len > MAX_VALUE_LEN {
        Verdict::ValueTooLarge
    } else {
        Verdict::Copy
    }
}

/// Records above the size ceilings are skipped, not forwarded.
pub fn record_verdict(key_len: u64, value_len: u64) -> (r: Verdict)
    ensures
        r == verdict_of(key_len as nat, value_len as nat),
{
    if key_len > MAX_KEY_LEN {
        Verdict::KeyTooLarge
    } else if value_len > MAX_VALUE_LEN {
        Verdict::ValueTooLarge
    } else {
        Verdict::Copy
    }
}

/// What the caller does with a record of a full copy.
#[derive(Clone, Copy, Debug, PartialEq, Eq, Structural)]
pub enum RecordAction {
    /// Leave it out (too large).
    Skip(Verdict),
    /// Add it to the current batch.
    Add,
    /// Add it to the current batch, then write the batch.
    AddThenWrite,
}

/// What the caller does after trying to write a batch, or after a failed read.
#[derive(Clone, Copy, Debug, PartialEq, Eq, Structural)]
pub enum FailureAction {
    Continue,
    Retry,
    Abort,
}

/// The state of a streaming full copy of one store.
pub struct FullCopy {
    /// Records in the batch not yet written.
    pub pending: u64,
    /// Records added to batches.
    pub copied: u64,
    /// Records skipped for size.
    pub skipped: u64,
    /// Consecutive failures.
    pub failures: u64,
}

impl FullCopy {
    pub fn new() -> (c: FullCopy)
        ensures
            c.pending == 0 && c.copied == 0 && c.skipped == 0 && c.failures == 0,
    {
        FullCopy { pending: 0, copied: 0, skipped: 0, failures: 0 }
    }

    /// Takes the next source record, by its key and value lengths.
    pub fn on_record(&mut self, key_len: u64, value_len: u64) -> (a: RecordAction)
        requires
            old(self).pending < BATCH_SIZE,
            old(self).copied < u64::MAX,
            old(self).skipped < u64::MAX,
        ensures
            verdict_of(key_len as nat, value_len as nat) != Verdict::Copy ==> {
                &&& a == RecordAction::Skip(verdict_of(key_len as nat, value_len as nat))
                &&& final(self).skipped == old(self).skipped + 1
                &&& final(self).pending == old(self).pending
                &&& final(self).copied == old(self).copied
                &&& final(self).failures == old(self).failures
            },
            verdict_of(key_len as nat, value_len as nat) == Verdict::Copy ==> {
                &&& final(self).copied == old(self).copied + 1
                &&& final(self).skipped == old(self).skipped
                &&& final(self).failures == 0
                &&& final(self).pending == old(self).pending + 1
                &&& a == if final(self).pending >= BATCH_SIZE {
                    RecordAction::AddThenWrite
                } else {
                    RecordAction::Add
                }
            },
    {
        let v = record_verdict(key_len, value_len);
        if v != Verdict::Copy {
            self.skipped = self.skipped + 1;
            return RecordAction::Skip(v);
        }
        self.copied = self.copied + 1;
        self.pending = self.pending + 1;
        self.failures = 0;
        if self.pending >= BATCH_SIZE {
            RecordAction::AddThenWrite
        } else {
            RecordAction::Add
        }
    }

    /// Takes the outcome of writing the current batch: a written batch empties it,
    /// a failed one is retried until the failures in a row reach the bound.
    pub fn on_write(&mut self, ok: bool) -> (a: FailureAction)
        requires
            old(self).failures < MAX_CONSECUTIVE_FAILURES,
        ensures
            final(self).copied == old(self).copied,
            final(self).skipped == old(self).skipped,
            ok ==> a == FailureAction::Continue && final(self).pending == 0 && final(self).failures
                == 0,
            !ok ==> final(self).pending == old(self).pending && final(self).failures
                == old(self).failures + 1 && a == if final(self).failures
                >= MAX_CONSECUTIVE_FAILURES {
                FailureAction::Abort
            } else {
                FailureAction::Retry
            },
    {
        if ok {
            self.pending = 0;
            self.failures = 0;
            FailureAction::Continue
        } else {
            self.failures = self.failures + 1;
            if self.failures >= MAX_CONSECUTIVE_FAILURES {
                FailureAction::Abort
            } else {
                FailureAction::Retry
            }
        }
    }

    /// Takes a failed read of a source record: skipped, until too many in a row.
    pub fn on_read_error(&mut self) -> (a: FailureAction)
        requires
            old(self).failures < MAX_CONSECUTIVE_FAILURES,
        ensures
            final(self).copied == old(self).copied,
            final(self).skipped == old(self).skipped,
            final(self).pending == old(self).pending,
            final(self).failures == old(self).failures + 1,
            a == if final(self).failures >= MAX_CONSECUTIVE_FAILURES {
                FailureAction::Abort
            } else {
                FailureAction::Continue
            },
    {
        self.failures = self.failures + 1;
        if self.failures >= MAX_CONSECUTIVE_FAILURES {
            FailureAction::Abort
        } else {
            FailureAction::Continue
        }
    }
}

/// A copy whose row counts do not add up.
#[derive(Clone, Copy, Debug, PartialEq, Eq, Structural)]
pub struct VerificationMismatch {
    pub source: u64,
    pub before: u64,
    pub after: u64,
}

/// Checks a finished copy by row counts: the target must have grown by exactly the
/// source's count. Returns the number of records migrated.
pub fn verify_counts(source: u64, before: u64, after: u64) -> (r: Result<u64, VerificationMismatch>)
    ensures
        after >= before && after - before == source ==> r == Ok::<u64, VerificationMismatch>(
            source,
        ),
        !(after >= before && after - before == source) ==> r == Err::<u64, VerificationMismatch>(
            VerificationMismatch { source, before, after },
        ),
{
    if after >= before && after - before == source {
        Ok(source)
    } else {
        Err(VerificationMismatch { source, before, after })
    }
}

/// The state of a copy of the records of a known key set.
pub struct SelectedCopy {
    pub copied: u64,
    pub not_found: u64,
    pub pending: u64,
}

impl SelectedCopy {
    pub fn new() -> (c: SelectedCopy)
        ensures
            c.copied == 0 && c.not_found == 0 && c.pending == 0,
    {
        SelectedCopy { copied: 0, not_found: 0, pending: 0 }
    }

    /// Takes whether the source holds the next key; returns whether the batch is now
    /// full and is to be written. A key missing from the source is counted, not an error.
    pub fn on_lookup(&mut self, found: bool) -> (write_now: bool)
        requires
            old(self).copied < u64::MAX,
            old(self).not_found < u64::MAX,
            old(self).pending < BATCH_SIZE,
        ensures
            found ==> final(self).copied == old(self).copied + 1 && final(self).not_found
                == old(self).not_found,
            !found ==> final(self).copied == old(self).copied && final(self).not_found
                == old(self).not_found + 1,
            write_now == (found && old(self).pending + 1 >= BATCH_SIZE),
            final(self).pending as int == if !found {
                old(self).pending as int
            } else if write_now {
                0
            } else {
                old(self).pending + 1
            },
    {
        if !found {
            self.not_found = self.not_found + 1;
            return false;
        }
        self.copied = self.copied + 1;
        if self.pending + 1 >= BATCH_SIZE {
            self.pending = 0;
            true
        } else {
            self.pending = self.pending + 1;
            false
        }
    }
}

/// The heights that bound the copied part of the chain.
#[derive(Clone, Copy, Debug, PartialEq, Eq, Structural)]
pub struct MigrationWindow {
    pub temporal_height: u64,
    pub rooted_height: u64,
}

#[derive(Clone, Copy, Debug, PartialEq, Eq, Structural)]
pub enum WindowError {
    /// The configuration store holds no temporal height record.
    MissingTemporalHeight,
    /// Neither height could be read.
    NoHeights,
    /// The rooted height lies above the temporal height.
    RootedAboveTemporal { temporal: u64, rooted: u64 },
}

/// How far the rooted height is assumed to trail when only the temporal height is known.
pub const ROOTED_LAG: u64 = 10;

/// The temporal height that a record holds: a non-negative integer, else 0.
pub open spec fn temporal_value(record: Seq<u8>) -> u64 {
    match decoded(record) {
        Some(m) => match uint_of(m) {
            Some(v) => v,
            None => 0,
        },
        None => 0,
    }
}

/// The height of the rooted tip's entry, else 0.
pub open spec fn rooted_value(entry: Option<Seq<u8>>) -> u64 {
    match entry {
        Some(e) => match entry_fields(e) {
            Some((h, _, _)) => h,
            None => 0,
        },
        None => 0,
    }
}

pub open spec fn window_of(t0: u64, r0: u64) -> Result<MigrationWindow, WindowError> {
    if t0 == 0 && r0 == 0 {
        Err(WindowError::NoHeights)
    } else {
        let t = if t0 == 0 {
            r0
        } else {
            t0
        };
        let r = if r0 != 0 {
            r0
        } else if t0 >= ROOTED_LAG {
            (t0 - ROOTED_LAG) as u64
        } else {
            0
        };
        if r > t {
            Err(WindowError::RootedAboveTemporal { temporal: t, rooted: r })
        } else {
            Ok(MigrationWindow { temporal_height: t, rooted_height: r })
        }
    }
}

/// The window from the configuration store's temporal height record and the entry that
/// its rooted tip names. A height that cannot be read counts as 0; when one of the two
/// is 0 the other stands in for it.
pub fn derive_window(temporal_record: Option<&Vec<u8>>, rooted_entry: Option<&Vec<u8>>) -> (r:
    Result<MigrationWindow, WindowError>)
    ensures
        match temporal_record {
            None => r == Err::<MigrationWindow, WindowError>(WindowError::MissingTemporalHeight),
            Some(rec) => r == window_of(
                temporal_value(rec@),
                rooted_value(
                    match rooted_entry {
                        Some(e) => Some(e@),
                        None => None,
                    },
                ),
            ),
        },
{
    let rec = match temporal_record {
        None => {
            return Err(WindowError::MissingTemporalHeight);
        },
        Some(rec) => rec,
    };
    let t0: u64 = match decode(rec) {
        Ok(t) => match uint_value(&t) {
            Some(v) => v,
            None => 0,
        },
        Err(_) => 0,
    };
    let r0: u64 = match rooted_entry {
        Some(e) => match entry_header(e) {
            Some(x) => x.height,
            None => 0,
        },
        None => 0,
    };
    if t0 == 0 && r0 == 0 {
        return Err(WindowError::NoHeights);
    }
    let t = if t0 == 0 { r0 } else { t0 };
    let r = if r0 != 0 { r0 } else { t0.saturating_sub(ROOTED_LAG) };
    if r > t {
        Err(WindowError::RootedAboveTemporal { temporal: t, rooted: r })
    } else {
        Ok(MigrationWindow { temporal_height: t, rooted_height: r })
    }
}

/// The key of the synthesized rooted height record.
pub open spec fn rooted_height_key() -> Seq<u8> {
    seq![114u8, 111, 111, 116, 101, 100, 95, 104, 101, 105, 103, 104, 116]
}

/// The value of the rooted height record: the height as an integer term where it fits
/// 31 bits, else its decimal digits as a binary.
pub open spec fn rooted_height_value(h: u64) -> Seq<u8> {
    if h <= 0x7fff_ffff {
        seq![131u8] + enc(TermModel::Int(h as i32), Mode::Native)
    } else {
        seq![131u8] + enc(TermModel::Binary(decimal(h as nat)), Mode::Native)
    }
}

/// The record that tells the target its rooted height: key, then value.
pub fn rooted_height_record(h: u64) -> (r: (Vec<u8>, Vec<u8>))
    ensures
        r.0@ == rooted_height_key(),
        r.1@ == rooted_height_value(h),
{
    let key = vec![114u8, 111, 111, 116, 101, 100, 95, 104, 101, 105, 103, 104, 116];
    assert(key@ =~= rooted_height_key());
    let value = if h <= 0x7fff_ffff {
        encode_native(&Term::Int(h as i32))
    } else {
        let digits = decimal_bytes(h);
        proof {
            lemma_decimal_len(h as nat);
        }
        encode_native(&Term::Binary(digits))
    };
    (key, value)
}

/// A 64-bit number has at most 20 decimal digits.
pub proof fn lemma_decimal_len(n: nat)
    requires
        n <= u64::MAX,
    ensures
        decimal(n).len() <= 20,
{
    assert(n < pow10(20)) by {
        reveal_with_fuel(pow10, 21);
    }
    lemma_decimal_bound_gen(n, 20);
}

proof fn lemma_decimal_bound_gen(n: nat, k: nat)
    requires
        k >= 1,
        n < pow10(k),
    ensures
        decimal(n).len() <= k,
    decreases n,
{
    if n >= 10 {
        assert(n / 10 < pow10((k - 1) as nat)) by {
            assert(pow10(k) == 10 * pow10((k - 1) as nat));
        }
        if k == 1 {
            assert(pow10(0) == 1);
        } else {
            lemma_decimal_bound_gen(n / 10, (k - 1) as nat);
        }
    }
}

pub open spec fn pow10(k: nat) -> nat
    decreases k,
{
    if k == 0 {
        1
    } else {
        10 * pow10((k - 1) as nat)
    }
}

/// How much of the migration a run performs.
#[derive(Clone, Copy, Debug, PartialEq, Eq, Structural)]
pub enum MigrationMode {
    /// Every step.
    Full,
    /// Schema and the two full copies only.
    Weak,
}

/// One step of a migration run.
#[derive(Clone, Copy, Debug, PartialEq, Eq, Structural)]
pub enum Step {
    CreateTarget,
    CopyContractState,
    CopySysConf,
    DeriveWindow,
    WalkChain,
    WriteRootedHeight,
    CopyDependents,
}

pub open spec fn steps_of(mode: MigrationMode) -> Seq<Step> {
    if mode == MigrationMode::Full {
        seq![
            Step::CreateTarget,
            Step::CopyContractState,
            Step::CopySysConf,
            Step::DeriveWindow,
            Step::WalkChain,
            Step::WriteRootedHeight,
            Step::CopyDependents,
        ]
    } else {
        seq![Step::CreateTarget, Step::CopyContractState, Step::CopySysConf]
    }
}

/// The steps of a run, in the order they are performed.
pub fn migration_steps(mode: MigrationMode) -> (r: Vec<Step>)
    ensures
        r@ == steps_of(mode),
{
    let mut r = vec![Step::CreateTarget, Step::CopyContractState, Step::CopySysConf];
    if mode == MigrationMode::Full {
        r.push(Step::DeriveWindow);
        r.push(Step::WalkChain);
        r.push(Step::WriteRootedHeight);
        r.push(Step::CopyDependents);
    }
    assert(r@ =~= steps_of(mode));
    r
}

} // verus!
