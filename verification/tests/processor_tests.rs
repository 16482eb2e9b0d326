use homomorphicencryption::error::EngineError;
use homomorphicencryption::processor::{
    decimal_string, run, HomomorphicEncryptionProcessor, ProcessData, ProcessResult,
    ProcessorStats,
};

#[test]
fn new_processor_has_seen_nothing() {
    let p = HomomorphicEncryptionProcessor::new(true);
    assert_eq!(p.get_stats(), ProcessorStats { processed_count: 0, verbose: true });
    let q = HomomorphicEncryptionProcessor::new(false);
    assert_eq!(q.get_stats(), ProcessorStats { processed_count: 0, verbose: false });
}

#[test]
fn process_at_reports_length_number_and_moment() {
    let mut p = HomomorphicEncryptionProcessor::new(false);
    let stamp = String::from("2024-01-02T03:04:05+00:00");
    let first = p.process_at("hello", stamp.clone()).unwrap();
    assert_eq!(
        first,
        ProcessResult {
            success: true,
            message: String::from("Successfully processed item #1"),
            data: Some(ProcessData { length: 5, processed_at: stamp.clone(), item_number: 1 }),
        }
    );
    let second = p.process_at("", stamp.clone()).unwrap();
    assert_eq!(second.message, "Successfully processed item #2");
    assert_eq!(second.data, Some(ProcessData { length: 0, processed_at: stamp, item_number: 2 }));
    assert_eq!(p.get_stats(), ProcessorStats { processed_count: 2, verbose: false });
}

#[test]
fn length_is_counted_in_bytes() {
    let mut p = HomomorphicEncryptionProcessor::new(false);
    let r = p.process_at("h\u{e9}llo \u{1f600}", String::new()).unwrap();
    assert_eq!(r.data.unwrap().length, 11);
}

#[test]
fn process_counts_up_and_stamps_the_time() {
    let mut p = HomomorphicEncryptionProcessor::new(true);
    for n in 1..=12usize {
        let r: Result<ProcessResult, EngineError> = p.process("abc");
        let r = r.unwrap();
        assert!(r.success);
        assert_eq!(r.message, format!("Successfully processed item #{}", n));
        let d = r.data.unwrap();
        assert_eq!(d.length, 3);
        assert_eq!(d.item_number, n);
        // an RFC 3339 timestamp in UTC: date, 'T', time, offset
        assert!(d.processed_at.len() >= 25);
        assert_eq!(&d.processed_at[4..5], "-");
        assert_eq!(&d.processed_at[10..11], "T");
        assert!(d.processed_at.ends_with("+00:00"));
    }
    assert_eq!(p.get_stats().processed_count, 12);
    assert!(p.get_stats().verbose);
}

#[test]
fn run_reports_the_first_item() {
    let r = run(false, Some(String::from("some input")), None).unwrap().unwrap();
    assert!(r.success);
    assert_eq!(r.message, "Successfully processed item #1");
    let d = r.data.unwrap();
    assert_eq!(d.length, 10);
    assert_eq!(d.item_number, 1);
    assert!(d.processed_at.len() >= 25);
    assert!(d.processed_at.ends_with("+00:00"));
}

#[test]
fn run_without_input_reports_nothing() {
    assert_eq!(run(true, None, Some(String::from("out.json"))), Ok(None));
}

#[test]
fn decimal_string_matches_the_standard_numeral() {
    for n in [0usize, 1, 9, 10, 11, 99, 100, 101, 12345, 1_000_000, usize::MAX] {
        assert_eq!(decimal_string(n), n.to_string());
    }
}

#[test]
fn every_error_has_its_message() {
    assert_eq!(EngineError::DimensionMismatch.message(), "ring dimension mismatch");
    assert_eq!(EngineError::LevelMismatch.message(), "modulus level mismatch");
    assert_eq!(EngineError::NotInvertible.message(), "value is not invertible");
    assert_eq!(EngineError::InsufficientEntropy.message(), "insufficient entropy");
    assert_eq!(EngineError::NoiseOverflow.message(), "noise overflow");
}
