use fabric_doctor::migrate::{
    derive_window, migration_steps, record_verdict, rooted_height_record, verify_counts,
    FailureAction, FullCopy, MigrationMode, MigrationWindow, RecordAction, SelectedCopy, Step,
    Verdict, VerificationMismatch, WindowError, BATCH_SIZE,
};
use fabric_doctor::walker::decimal_bytes;
use fabric_doctor::{encode_native, encode_safe_deterministic, Term};

fn atom(name: &str) -> Term {
    Term::Atom(name.as_bytes().to_vec())
}

fn entry_at(height: i32) -> Vec<u8> {
    let h = Term::Dict(vec![(atom("height"), Term::Int(height)), (atom("slot"), Term::Int(1))]);
    let hb = encode_safe_deterministic(&h);
    encode_native(&Term::Dict(vec![(atom("header"), Term::Binary(hb))]))
}

#[test]
fn verification_counts() {
    assert_eq!(verify_counts(7, 0, 7), Ok(7));
    assert_eq!(verify_counts(0, 0, 0), Ok(0));
    assert_eq!(verify_counts(5, 2, 7), Ok(5));
    assert_eq!(
        verify_counts(7, 0, 6),
        Err(VerificationMismatch { source: 7, before: 0, after: 6 })
    );
    assert_eq!(
        verify_counts(1, 5, 3),
        Err(VerificationMismatch { source: 1, before: 5, after: 3 })
    );
}

#[test]
fn record_size_ceilings() {
    assert_eq!(record_verdict(1 << 20, 1 << 28), Verdict::Copy);
    assert_eq!(record_verdict((1 << 20) + 1, 0), Verdict::KeyTooLarge);
    assert_eq!(record_verdict(0, (1 << 28) + 1), Verdict::ValueTooLarge);
}

#[test]
fn full_copy_batches_and_retries() {
    let mut c = FullCopy::new();
    for i in 1..BATCH_SIZE {
        assert_eq!(c.on_record(1, 1), RecordAction::Add);
        assert_eq!(c.pending, i);
    }
    assert_eq!(c.on_record(1, 1), RecordAction::AddThenWrite);
    assert_eq!(c.on_record(2_000_000, 1), RecordAction::Skip(Verdict::KeyTooLarge));
    assert_eq!(c.skipped, 1);
    for _ in 1..10 {
        assert_eq!(c.on_write(false), FailureAction::Retry);
    }
    assert_eq!(c.on_write(false), FailureAction::Abort);
    let mut c = FullCopy::new();
    c.on_record(1, 1);
    assert_eq!(c.on_write(true), FailureAction::Continue);
    assert_eq!((c.pending, c.copied, c.failures), (0, 1, 0));
    assert_eq!(c.on_read_error(), FailureAction::Continue);
    assert_eq!(c.failures, 1);
}

#[test]
fn selected_copy_counts() {
    let mut c = SelectedCopy::new();
    assert!(!c.on_lookup(true));
    assert!(!c.on_lookup(false));
    assert_eq!((c.copied, c.not_found, c.pending), (1, 1, 1));
    for _ in 1..BATCH_SIZE - 1 {
        assert!(!c.on_lookup(true));
    }
    assert!(c.on_lookup(true));
    assert_eq!(c.pending, 0);
    assert_eq!(c.copied, BATCH_SIZE);
}

#[test]
fn window_from_records() {
    let t = encode_native(&Term::Int(100));
    let r = entry_at(90);
    assert_eq!(
        derive_window(Some(&t), Some(&r)),
        Ok(MigrationWindow { temporal_height: 100, rooted_height: 90 })
    );
    assert_eq!(
        derive_window(Some(&t), None),
        Ok(MigrationWindow { temporal_height: 100, rooted_height: 90 })
    );
    let zero = encode_native(&Term::Int(0));
    assert_eq!(
        derive_window(Some(&zero), Some(&r)),
        Ok(MigrationWindow { temporal_height: 90, rooted_height: 90 })
    );
    assert_eq!(derive_window(None, Some(&r)), Err(WindowError::MissingTemporalHeight));
    assert_eq!(derive_window(Some(&zero), None), Err(WindowError::NoHeights));
    let low = encode_native(&Term::Int(5));
    assert_eq!(
        derive_window(Some(&low), None),
        Ok(MigrationWindow { temporal_height: 5, rooted_height: 0 })
    );
    assert_eq!(
        derive_window(Some(&low), Some(&r)),
        Err(WindowError::RootedAboveTemporal { temporal: 5, rooted: 90 })
    );
}

#[test]
fn rooted_height_records() {
    let (k, v) = rooted_height_record(90);
    assert_eq!(k, b"rooted_height".to_vec());
    assert_eq!(v, vec![131, 97, 90]);
    let (_, v) = rooted_height_record(70000);
    assert_eq!(v, vec![131, 98, 0, 1, 0x11, 0x70]);
    let (_, v) = rooted_height_record(5_000_000_000);
    let mut expected = vec![131, 109, 0, 0, 0, 10];
    expected.extend_from_slice(b"5000000000");
    assert_eq!(v, expected);
}

#[test]
fn decimal_digits() {
    assert_eq!(decimal_bytes(0), b"0".to_vec());
    assert_eq!(decimal_bytes(u64::MAX), u64::MAX.to_string().into_bytes());
}

#[test]
fn migration_plans() {
    assert_eq!(
        migration_steps(MigrationMode::Weak),
        vec![Step::CreateTarget, Step::CopyContractState, Step::CopySysConf]
    );
    let full = migration_steps(MigrationMode::Full);
    assert_eq!(full.len(), 7);
    assert_eq!(full[3], Step::DeriveWindow);
    assert_eq!(full[6], Step::CopyDependents);
}
