use xberg_candle_ocr::error::{bracketed_text, CandleOcrError};

#[test]
fn sizes_are_written_as_a_list() {
    for sizes in [vec![], vec![0], vec![7, 10], vec![1, 1, 151_552], vec![usize::MAX, 0, 99]] {
        assert_eq!(bracketed_text(&sizes), format!("{sizes:?}"));
    }
}

#[test]
fn a_failed_step_is_named_first() {
    let cause = candle_core::Error::Msg("no kernel".to_string());
    match CandleOcrError::inference("Sampling: ", cause) {
        CandleOcrError::InferenceFailed(text) => assert_eq!(text, "Sampling: no kernel"),
        other => panic!("unexpected error {other:?}"),
    }
}

#[test]
fn a_candle_error_converts() {
    let cause = candle_core::Error::Msg("out of range".to_string());
    assert!(matches!(CandleOcrError::from(cause), CandleOcrError::Candle(_)));
}
