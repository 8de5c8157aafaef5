use gamemaps::carmack::carmack_expand;
use gamemaps::carmack::carmack_expand_with;
use gamemaps::carmack::FarOffset;
use gamemaps::error::MapError;
use gamemaps::rlew::cells_to_bytes;
use gamemaps::rlew::rlew_expand;

const TAG: u16 = 0xabcd;

#[test]
fn carmack_literal_words_pass_through() {
    assert_eq!(carmack_expand(&[1, 2, 3, 4], 4), Ok(vec![1, 2, 3, 4]));
}

#[test]
fn carmack_short_stream_is_zero_padded() {
    assert_eq!(carmack_expand(&[1, 2], 6), Ok(vec![1, 2, 0, 0, 0, 0]));
    assert_eq!(carmack_expand(&[], 3), Ok(vec![0, 0, 0]));
}

#[test]
fn carmack_long_stream_is_cut_at_len() {
    assert_eq!(carmack_expand(&[1, 2, 3, 4, 5, 6], 4), Ok(vec![1, 2, 3, 4]));
    assert_eq!(carmack_expand(&[1, 2, 3, 4], 0), Ok(vec![]));
}

#[test]
fn carmack_odd_length_takes_one_raw_byte() {
    assert_eq!(carmack_expand(&[1, 2, 3], 3), Ok(vec![1, 2, 3]));
    assert_eq!(carmack_expand(&[1, 2, 3, 4, 5], 3), Ok(vec![1, 2, 3]));
    assert_eq!(carmack_expand(&[1, 2], 3), Ok(vec![1, 2, 0]));
}

#[test]
fn carmack_single_left_byte_is_kept_before_padding() {
    assert_eq!(carmack_expand(&[1, 2, 3, 4, 5], 8), Ok(vec![1, 2, 3, 4, 5, 0, 0, 0]));
}

#[test]
fn carmack_near_copy_overlaps_its_own_output() {
    let data = [0x11, 0x22, 0x02, 0xa7, 0x01];
    assert_eq!(carmack_expand(&data, 6), Ok(vec![0x11, 0x22, 0x11, 0x22, 0x11, 0x22]));
}

#[test]
fn carmack_near_copy_reaches_back_two_words() {
    let data = [1, 2, 3, 4, 0x01, 0xa7, 0x02];
    assert_eq!(carmack_expand(&data, 6), Ok(vec![1, 2, 3, 4, 1, 2]));
}

#[test]
fn carmack_far_copy_counts_words_from_the_start() {
    let data = [1, 2, 3, 4, 0x01, 0xa8, 0x01, 0x00];
    assert_eq!(carmack_expand(&data, 6), Ok(vec![1, 2, 3, 4, 3, 4]));
    let first = [1, 2, 3, 4, 0x02, 0xa8, 0x00, 0x00];
    assert_eq!(carmack_expand(&first, 8), Ok(vec![1, 2, 3, 4, 1, 2, 3, 4]));
}

#[test]
fn carmack_far_offset_uses_both_bytes() {
    let mut data: Vec<u8> = Vec::new();
    for i in 0..300u32 {
        data.push((i % 100) as u8);
        data.push((i / 100) as u8);
    }
    data.extend_from_slice(&[0x01, 0xa8, 0x03, 0x01]);
    let out = carmack_expand(&data, 602).unwrap();
    assert_eq!(out.len(), 602);
    assert_eq!(&out[..600], &data[..600]);
    // word 0x0103 = 259: bytes 59, 2
    assert_eq!(&out[600..], &[59, 2]);
}

#[test]
fn carmack_escapes_emit_the_tag_as_data() {
    assert_eq!(carmack_expand(&[0x00, 0xa7, 0x55], 2), Ok(vec![0x55, 0xa7]));
    assert_eq!(carmack_expand(&[0x00, 0xa8, 0x66], 2), Ok(vec![0x66, 0xa8]));
    assert_eq!(
        carmack_expand(&[0x00, 0xa8, 0x66, 9, 8], 4),
        Ok(vec![0x66, 0xa8, 9, 8])
    );
}

#[test]
fn carmack_run_is_cut_at_len() {
    let data = [1, 2, 0x05, 0xa7, 0x01];
    assert_eq!(carmack_expand(&data, 6), Ok(vec![1, 2, 1, 2, 1, 2]));
    assert_eq!(carmack_expand(&data, 7), Ok(vec![1, 2, 1, 2, 1, 2, 0]));
}

#[test]
fn carmack_back_reference_before_start_is_corrupt() {
    assert_eq!(carmack_expand(&[0x01, 0xa7, 0x01], 2), Err(MapError::CorruptToken));
    assert_eq!(carmack_expand(&[1, 2, 0x01, 0xa7, 0x02], 4), Err(MapError::CorruptToken));
}

#[test]
fn carmack_back_reference_to_unwritten_bytes_is_corrupt() {
    assert_eq!(carmack_expand(&[1, 2, 0x01, 0xa7, 0x00], 4), Err(MapError::CorruptToken));
    assert_eq!(
        carmack_expand(&[1, 2, 0x01, 0xa8, 0x01, 0x00], 4),
        Err(MapError::CorruptToken)
    );
    assert_eq!(carmack_expand(&[0x01, 0xa8, 0x00, 0x00], 2), Err(MapError::CorruptToken));
}

#[test]
fn carmack_stream_ending_inside_a_token_is_truncated() {
    assert_eq!(carmack_expand(&[0x01, 0xa7], 2), Err(MapError::TruncatedInput));
    assert_eq!(carmack_expand(&[0x00, 0xa8], 2), Err(MapError::TruncatedInput));
    assert_eq!(
        carmack_expand(&[1, 2, 0x01, 0xa8, 0x00], 4),
        Err(MapError::TruncatedInput)
    );
}

#[test]
fn carmack_output_has_requested_length() {
    let data = [7, 1, 0x03, 0xa7, 0x01, 0x00, 0xa8, 0x09, 4, 4, 0x02, 0xa8, 0x00, 0x00, 5];
    for len in 0..40usize {
        let out = carmack_expand(&data, len).unwrap();
        assert_eq!(out.len(), len);
    }
}

#[test]
fn rlew_literal_words_are_kept() {
    assert_eq!(rlew_expand(&[1, 0, 2, 3], 2, TAG), Ok(vec![1, 0x0302]));
}

#[test]
fn rlew_run_stands_between_literals() {
    let src = [5, 0, 0xcd, 0xab, 3, 0, 7, 0, 9, 0];
    assert_eq!(rlew_expand(&src, 5, TAG), Ok(vec![5, 7, 7, 7, 9]));
}

#[test]
fn rlew_short_stream_is_zero_padded() {
    let src = [5, 0, 0xcd, 0xab, 3, 0, 7, 0, 9, 0];
    assert_eq!(rlew_expand(&src, 8, TAG), Ok(vec![5, 7, 7, 7, 9, 0, 0, 0]));
    assert_eq!(rlew_expand(&[], 4, TAG), Ok(vec![0, 0, 0, 0]));
}

#[test]
fn rlew_run_is_cut_at_len() {
    let src = [5, 0, 0xcd, 0xab, 3, 0, 7, 0, 9, 0];
    assert_eq!(rlew_expand(&src, 3, TAG), Ok(vec![5, 7, 7]));
    assert_eq!(rlew_expand(&src, 0, TAG), Ok(vec![]));
}

#[test]
fn rlew_empty_run_adds_nothing() {
    let src = [0xcd, 0xab, 0, 0, 7, 0, 1, 0];
    assert_eq!(rlew_expand(&src, 1, TAG), Ok(vec![1]));
}

#[test]
fn rlew_run_of_the_tag_value_itself() {
    let src = [0xcd, 0xab, 2, 0, 0xcd, 0xab];
    assert_eq!(rlew_expand(&src, 2, TAG), Ok(vec![TAG, TAG]));
}

#[test]
fn rlew_escape_without_count_and_value_fails() {
    assert_eq!(rlew_expand(&[0xcd, 0xab, 3, 0], 4, TAG), Err(MapError::UnexpectedEscape));
    assert_eq!(rlew_expand(&[1, 0, 0xcd, 0xab], 4, TAG), Err(MapError::UnexpectedEscape));
    assert_eq!(
        rlew_expand(&[0xcd, 0xab, 3, 0, 7], 4, TAG),
        Err(MapError::UnexpectedEscape)
    );
}

#[test]
fn rlew_trailing_byte_is_one_cell() {
    assert_eq!(rlew_expand(&[1, 0, 2, 0, 9], 3, TAG), Ok(vec![1, 2, 9]));
    assert_eq!(rlew_expand(&[1, 0, 2, 0, 9], 5, TAG), Ok(vec![1, 2, 9, 0, 0]));
    assert_eq!(rlew_expand(&[1, 0, 2, 0, 9], 2, TAG), Ok(vec![1, 9]));
    assert_eq!(rlew_expand(&[9], 0, TAG), Ok(vec![]));
}

#[test]
fn rlew_output_has_requested_length() {
    let src = [5, 0, 0xcd, 0xab, 30, 0, 7, 0, 9, 0, 1];
    for len in 0..50usize {
        let out = rlew_expand(&src, len, TAG).unwrap();
        assert_eq!(out.len(), len);
    }
}

#[test]
fn rlew_words_without_the_tag_come_back_unchanged() {
    let cells: Vec<u16> = vec![0, 1, 0xffff, 0x1234, 0xabcc, 0xabce];
    let mut src: Vec<u8> = Vec::new();
    for c in &cells {
        src.push((c % 256) as u8);
        src.push((c / 256) as u8);
    }
    assert_eq!(rlew_expand(&src, cells.len(), TAG), Ok(cells));
}

#[test]
fn carmack_far_offset_from_one_names_the_word_before() {
    let data = [1, 2, 3, 4, 0x01, 0xa8, 0x01, 0x00];
    assert_eq!(carmack_expand_with(&data, 6, FarOffset::FromOne), Ok(vec![1, 2, 3, 4, 1, 2]));
    assert_eq!(carmack_expand_with(&data, 6, FarOffset::FromZero), Ok(vec![1, 2, 3, 4, 3, 4]));
    let second = [1, 2, 3, 4, 0x01, 0xa8, 0x02, 0x00];
    assert_eq!(carmack_expand_with(&second, 6, FarOffset::FromOne), Ok(vec![1, 2, 3, 4, 3, 4]));
    assert_eq!(
        carmack_expand_with(&second, 6, FarOffset::FromZero),
        Err(MapError::CorruptToken)
    );
}

#[test]
fn carmack_far_offset_from_one_has_no_word_zero() {
    let data = [1, 2, 0x01, 0xa8, 0x00, 0x00];
    assert_eq!(carmack_expand_with(&data, 4, FarOffset::FromOne), Err(MapError::CorruptToken));
    assert_eq!(carmack_expand_with(&data, 4, FarOffset::FromZero), Ok(vec![1, 2, 1, 2]));
}

#[test]
fn carmack_modes_agree_without_far_tokens() {
    let data = [0x11, 0x22, 0x02, 0xa7, 0x01, 0x00, 0xa8, 0x09, 7];
    let zero = carmack_expand_with(&data, 9, FarOffset::FromZero);
    let one = carmack_expand_with(&data, 9, FarOffset::FromOne);
    assert_eq!(zero, Ok(vec![0x11, 0x22, 0x11, 0x22, 0x11, 0x22, 0x09, 0xa8, 7]));
    assert_eq!(zero, one);
    assert_eq!(carmack_expand(&data, 9), zero);
}

#[test]
fn cells_are_written_low_byte_first() {
    assert_eq!(cells_to_bytes(&[0x1234, 0, 0xffff, 0x00a7]), vec![0x34, 0x12, 0, 0, 0xff, 0xff, 0xa7, 0]);
    assert_eq!(cells_to_bytes(&[]), Vec::<u8>::new());
}

#[test]
fn cells_written_out_expand_to_themselves() {
    let cells: Vec<u16> = (0..300u16).map(|i| i.wrapping_mul(257)).collect();
    let tag: u16 = 0xfffe;
    assert!(!cells.contains(&tag));
    assert_eq!(rlew_expand(&cells_to_bytes(&cells), cells.len(), tag), Ok(cells));
}
