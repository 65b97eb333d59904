use sisyphus::trace::{parse_trace_range, TraceRangeError};

#[test]
fn trace_range_exclusive() {
    assert_eq!(parse_trace_range("100..200").ok(), Some(100..200));
}

#[test]
fn trace_range_inclusive() {
    assert_eq!(parse_trace_range("100..=200").ok(), Some(100..201));
}

#[test]
fn trace_range_single() {
    assert_eq!(parse_trace_range("100").ok(), Some(100..101));
    assert_eq!(parse_trace_range("+7").ok(), Some(7..8));
}

#[test]
fn trace_range_start_after_end() {
    assert!(matches!(parse_trace_range("200..100"), Err(TraceRangeError::StartAfterEnd)));
    assert!(matches!(parse_trace_range("200..=100"), Err(TraceRangeError::StartAfterEnd)));
}

#[test]
fn trace_range_bad_parts() {
    match parse_trace_range("x..5") {
        Err(TraceRangeError::InvalidStart(t)) => assert_eq!(t, "x"),
        _ => panic!("the start is no count"),
    }
    match parse_trace_range("5..=y") {
        Err(TraceRangeError::InvalidEnd(t)) => assert_eq!(t, "y"),
        _ => panic!("the end is no count"),
    }
    match parse_trace_range("abc") {
        Err(TraceRangeError::InvalidValue(t)) => assert_eq!(t, "abc"),
        _ => panic!("the text is no count"),
    }
    assert!(matches!(parse_trace_range(""), Err(TraceRangeError::InvalidValue(_))));
    assert!(matches!(parse_trace_range("99999999999999999999999"), Err(TraceRangeError::InvalidValue(_))));
}

#[test]
fn trace_range_too_large() {
    let max = usize::MAX.to_string();
    assert!(matches!(parse_trace_range(&max), Err(TraceRangeError::TooLarge)));
    assert!(matches!(parse_trace_range(&format!("0..={}", max)), Err(TraceRangeError::TooLarge)));
}
