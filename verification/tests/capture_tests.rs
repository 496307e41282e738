use cs_flythrough::capture::{
    check_frame_params, error_json_line, frame_file_name, json_escape, padded_bytes_per_row, strip_padding,
    FrameParamError,
};

#[test]
fn test_strip_padding_removes_alignment_bytes() {
    // 2x2 image: unpadded_bpr = 8, padded to 256 (wgpu minimum alignment)
    let width = 2u32;
    let height = 2u32;
    let padded_bpr = 256usize;
    let mut input = vec![0u8; padded_bpr * height as usize];
    input[..8].copy_from_slice(&[1, 2, 3, 4, 5, 6, 7, 8]);
    input[256..264].copy_from_slice(&[9, 10, 11, 12, 13, 14, 15, 16]);
    let result = strip_padding(&input, width, height, padded_bpr as u32);
    assert_eq!(result, vec![1, 2, 3, 4, 5, 6, 7, 8, 9, 10, 11, 12, 13, 14, 15, 16]);
}

#[test]
fn test_strip_padding_no_padding_needed() {
    // 64x1 image: unpadded_bpr = 256, which happens to equal padded_bpr
    let width = 64u32;
    let height = 1u32;
    let padded_bpr = 256u32;
    let input: Vec<u8> = (0u8..=255u8).collect();
    let result = strip_padding(&input, width, height, padded_bpr);
    assert_eq!(result, input);
}

#[test]
fn strip_padding_exact_rows_is_identity() {
    let input: Vec<u8> = (0u8..24u8).collect();
    // 3 pixels wide, 2 rows, rows exactly 12 bytes
    assert_eq!(strip_padding(&input, 3, 2, 12), input);
}

#[test]
fn strip_padding_zero_height_is_empty() {
    assert!(strip_padding(&[], 5, 0, 256).is_empty());
}

#[test]
fn padded_rows_round_up_to_256() {
    assert_eq!(padded_bytes_per_row(1), 256);
    assert_eq!(padded_bytes_per_row(64), 256);
    assert_eq!(padded_bytes_per_row(65), 512);
    assert_eq!(padded_bytes_per_row(1920), 7680);
    assert_eq!(padded_bytes_per_row(0), 0);
}

#[test]
fn json_escape_backslashes_and_quotes() {
    assert_eq!(json_escape(r#"sub\frame "a".png"#), r#"sub\\frame \"a\".png"#);
    assert_eq!(json_escape("plain"), "plain");
    assert_eq!(json_escape(""), "");
}

#[test]
fn error_line_is_escaped_json() {
    assert_eq!(error_json_line("bad \"x\""), r#"{"error": "bad \"x\""}"#);
    assert_eq!(
        error_json_line("frame-count must be at least 1"),
        r#"{"error": "frame-count must be at least 1"}"#
    );
}

#[test]
fn frame_names_are_zero_padded() {
    assert_eq!(frame_file_name(0), "frame_0000.png");
    assert_eq!(frame_file_name(7), "frame_0007.png");
    assert_eq!(frame_file_name(123), "frame_0123.png");
    assert_eq!(frame_file_name(9999), "frame_9999.png");
    assert_eq!(frame_file_name(12345), "frame_12345.png");
}

#[test]
fn frame_params_zero_count_refused_first() {
    assert_eq!(check_frame_params(0, 0), Err(FrameParamError::ZeroFrameCount));
    assert_eq!(check_frame_params(0, 5), Err(FrameParamError::ZeroFrameCount));
    assert_eq!(check_frame_params(3, 0), Err(FrameParamError::ZeroFrameStep));
    assert_eq!(check_frame_params(1, 1), Ok(()));
}

#[test]
fn frame_param_messages() {
    assert_eq!(FrameParamError::ZeroFrameCount.message(), "frame-count must be at least 1");
    assert_eq!(FrameParamError::ZeroFrameStep.message(), "frame-step must be at least 1");
}
