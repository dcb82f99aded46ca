use av1_bitstream::bits::{BitstreamReader, BitstreamError};
use av1_bitstream::obu::{
    ForceSelector, Obu, ObuType, SequenceHeaderObu, ValidationPolicy,
};

/// Packs a list of (value, width) fields into bytes, most significant bit
/// first, padding the last byte with zero bits.
fn pack(fields: &[(u32, u8)]) -> Vec<u8> {
    let mut bits: Vec<bool> = Vec::new();
    for &(value, width) in fields {
        for i in (0..width).rev() {
            bits.push((value >> i) & 1 == 1);
        }
    }
    while bits.len() % 8 != 0 {
        bits.push(false);
    }
    let mut out = Vec::new();
    for chunk in bits.chunks(8) {
        let mut byte = 0u8;
        for &b in chunk {
            byte = (byte << 1) | (b as u8);
        }
        out.push(byte);
    }
    out
}

#[test]
fn obu_type_tag_mapping() {
    assert_eq!(ObuType::from_tag(1), ObuType::SequenceHeader);
    assert_eq!(ObuType::from_tag(2), ObuType::TemporalDelimiter);
    assert_eq!(ObuType::from_tag(3), ObuType::FrameHeader);
    assert_eq!(ObuType::from_tag(4), ObuType::TileGroup);
    assert_eq!(ObuType::from_tag(5), ObuType::Metadata);
    assert_eq!(ObuType::from_tag(6), ObuType::Frame);
    assert_eq!(ObuType::from_tag(7), ObuType::RedundantFrameHeader);
    assert_eq!(ObuType::from_tag(8), ObuType::TileList);
    assert_eq!(ObuType::from_tag(15), ObuType::Padding);
    assert_eq!(ObuType::from_tag(0), ObuType::Reserved);
    for tag in 9..=14 {
        assert_eq!(ObuType::from_tag(tag), ObuType::Reserved);
    }
}

#[test]
fn from_buf_without_size() {
    // forbidden 0, type 2, no extension, no size field, reserved 0.
    let buf = [0b0_0010_000u8, 0xAA, 0xBB];
    let obu = Obu::from_buf(&buf, ValidationPolicy::Strict).unwrap();
    assert_eq!(obu.obu_type, ObuType::TemporalDelimiter);
    assert!(obu.extension_header.is_none());
    assert_eq!(obu.size, None);
    assert_eq!(obu.payload_offset, 1);
    assert_eq!(obu.payload_len, 2);
}

#[test]
fn from_buf_with_size() {
    // type 1, has-size set; leb128 size 2; two payload bytes and one extra.
    let buf = [0b0_0001_010u8, 0x02, 0xBB, 0xCC, 0xDD];
    let obu = Obu::from_buf(&buf, ValidationPolicy::Strict).unwrap();
    assert_eq!(obu.obu_type, ObuType::SequenceHeader);
    assert_eq!(obu.size, Some(2));
    assert_eq!(obu.payload_offset, 2);
    assert_eq!(obu.payload_len, 2);
}

#[test]
fn from_buf_size_beyond_buffer() {
    let buf = [0b0_0001_010u8, 0x05, 0xBB];
    assert_eq!(
        Obu::from_buf(&buf, ValidationPolicy::Strict),
        Err(BitstreamError::EndOfStream)
    );
}

#[test]
fn from_buf_forbidden_bit_policy() {
    let buf = [0b1_0010_000u8, 0xAA];
    assert_eq!(
        Obu::from_buf(&buf, ValidationPolicy::Strict),
        Err(BitstreamError::MalformedField)
    );
    let obu = Obu::from_buf(&buf, ValidationPolicy::Lenient).unwrap();
    assert_eq!(obu.obu_type, ObuType::TemporalDelimiter);
}

#[test]
fn from_buf_extension_header() {
    // type 6 with extension: temporal 3, spatial 1, reserved 0.
    let buf = [0b0_0110_100u8, 0b011_01_000, 0xFF];
    let obu = Obu::from_buf(&buf, ValidationPolicy::Strict).unwrap();
    assert_eq!(obu.obu_type, ObuType::Frame);
    let ext = obu.extension_header.unwrap();
    assert_eq!(ext.temporal_id, 3);
    assert_eq!(ext.spatial_id, 1);
    assert_eq!(obu.payload_offset, 2);
    assert_eq!(obu.payload_len, 1);
}

#[test]
fn from_buf_extension_reserved_bits_policy() {
    let buf = [0b0_0110_100u8, 0b011_01_001, 0xFF];
    assert_eq!(
        Obu::from_buf(&buf, ValidationPolicy::Strict),
        Err(BitstreamError::MalformedField)
    );
    assert!(Obu::from_buf(&buf, ValidationPolicy::Lenient).is_ok());
}

#[test]
fn from_buf_empty_buffer() {
    let buf: [u8; 0] = [];
    assert_eq!(
        Obu::from_buf(&buf, ValidationPolicy::Lenient),
        Err(BitstreamError::EndOfStream)
    );
}

#[test]
fn decode_sequence_header() {
    let data = pack(&[
        (0, 3),  // seq_profile: Main
        (1, 1),  // still_picture
        (0, 1),  // timing_info_present
        (0, 5),  // operating_points_cnt_minus_1
        (8, 5),  // seq_level_idx[0]
        (3, 4),  // frame_width_bits_minus_1
        (3, 4),  // frame_height_bits_minus_1
        (9, 4),  // max_frame_width_minus_1
        (5, 4),  // max_frame_height_minus_1
        (1, 1),  // use_128x128_superblock
        (0, 1),  // enable_filter_intra
        (1, 1),  // enable_intra_edge_filter
        (0, 1),  // enable_interintra_compound
        (1, 1),  // enable_masked_compound
        (0, 1),  // enable_warped_motion
        (1, 1),  // enable_dual_filter
        (1, 1),  // enable_order_hint
        (1, 1),  // enable_jnt_comp
        (0, 1),  // enable_ref_frame_mvs
        (0, 1),  // seq_choose_screen_content_tools
        (1, 1),  // seq_force_screen_content_tools: always on
        (1, 1),  // seq_choose_integer_mv
        (6, 3),  // order_hint_bits_minus_1
    ]);
    let mut bs = BitstreamReader::new(&data);
    let hdr = SequenceHeaderObu::decode(&mut bs).unwrap();
    assert!(hdr.still_picture);
    assert_eq!(hdr.seq_level_idx, vec![8]);
    assert!(hdr.timing_info.is_none());
    assert_eq!(hdr.frame_width, 10);
    assert_eq!(hdr.frame_height, 6);
    assert!(hdr.use_128x128_superblock);
    assert!(!hdr.enable_filter_intra);
    assert!(hdr.enable_intra_edge_filter);
    assert!(!hdr.enable_interintra_compound);
    assert!(hdr.enable_masked_compound);
    assert!(!hdr.enable_warped_motion);
    assert!(hdr.enable_dual_filter);
    assert!(hdr.enable_order_hint);
    assert!(hdr.enable_jnt_comp);
    assert!(!hdr.enable_ref_frame_mvs);
    assert_eq!(hdr.seq_force_screen_content_tools, ForceSelector::AlwaysTrue);
    assert_eq!(hdr.seq_force_integer_mv, ForceSelector::CallerDecides);
    assert_eq!(hdr.order_hint_bits, 7);
}

#[test]
fn decode_cleared_flag_skips_gated_fields() {
    // enable_order_hint is cleared; the buffer ends right after the two
    // choose bits, so the gated fields are never read.
    let data = pack(&[
        (0, 3),  // seq_profile
        (0, 1),  // still_picture
        (0, 1),  // timing_info_present
        (1, 5),  // operating_points_cnt_minus_1: two entries
        (0, 5),  // seq_level_idx[0]
        (1, 5),  // seq_level_idx[1]
        (0, 4),  // frame_width_bits_minus_1
        (0, 4),  // frame_height_bits_minus_1
        (0, 1),  // max_frame_width_minus_1
        (0, 1),  // max_frame_height_minus_1
        (0, 1),  // use_128x128_superblock
        (0, 1),  // enable_filter_intra
        (0, 1),  // enable_intra_edge_filter
        (0, 1),  // enable_interintra_compound
        (0, 1),  // enable_masked_compound
        (0, 1),  // enable_warped_motion
        (0, 1),  // enable_dual_filter
        (0, 1),  // enable_order_hint: cleared
        (1, 1),  // seq_choose_screen_content_tools
        (1, 1),  // seq_choose_integer_mv
    ]);
    assert_eq!(data.len(), 5);
    let mut bs = BitstreamReader::new(&data);
    let hdr = SequenceHeaderObu::decode(&mut bs).unwrap();
    assert!(!hdr.enable_order_hint);
    assert!(!hdr.enable_jnt_comp);
    assert!(!hdr.enable_ref_frame_mvs);
    assert_eq!(hdr.order_hint_bits, 0);
    assert_eq!(hdr.seq_level_idx, vec![0, 1]);
    assert_eq!(hdr.frame_width, 1);
    assert_eq!(hdr.frame_height, 1);
    assert_eq!(
        hdr.seq_force_screen_content_tools,
        ForceSelector::CallerDecides
    );
    assert_eq!(hdr.seq_force_integer_mv, ForceSelector::CallerDecides);

    // The same stream with the flag set demands bits past the end.
    let mut with_flag = data.clone();
    with_flag[4] |= 0b0000_0100; // enable_order_hint is bit 37
    let mut bs2 = BitstreamReader::new(&with_flag);
    assert!(SequenceHeaderObu::decode(&mut bs2).is_err());
}

#[test]
fn decode_bad_profile() {
    let data = pack(&[(7, 3), (0, 5)]);
    let mut bs = BitstreamReader::new(&data);
    assert_eq!(
        SequenceHeaderObu::decode(&mut bs),
        Err(BitstreamError::MalformedField)
    );
}

#[test]
fn decode_failure_restores_cursor() {
    // Too short for a header: decoding fails and consumes nothing.
    let data = pack(&[(1, 3), (1, 1)]);
    let mut bs = BitstreamReader::new(&data);
    assert_eq!(
        SequenceHeaderObu::decode(&mut bs),
        Err(BitstreamError::EndOfStream)
    );
    assert_eq!(bs.f(4).unwrap(), 0b0011);
}

#[test]
fn decode_timing_info_block() {
    let data = pack(&[
        (2, 3),   // seq_profile: Professional
        (0, 1),   // still_picture
        (1, 1),   // timing_info_present
        (1, 32),  // num_units_in_display_tick
        (2, 32),  // time_scale
        (1, 1),   // equal_picture_interval
        (1, 1),   // num_ticks_per_picture_minus_1 as uvlc: 0
        (1, 1),   // decoder_model_info_present
        (4, 5),   // buffer_delay_length_minus_1
        (3, 32),  // num_units_in_decoding_tick
        (2, 5),   // buffer_removal_time_length_minus_1
        (1, 5),   // frame_presentation_time_length_minus_1
        (0, 5),   // operating_points_cnt_minus_1
        (0, 5),   // seq_level_idx[0]
        (0, 4),   // frame_width_bits_minus_1
        (0, 4),   // frame_height_bits_minus_1
        (0, 1),   // max_frame_width_minus_1
        (0, 1),   // max_frame_height_minus_1
        (0, 8),   // seven enable flags and enable_order_hint, all cleared
        (1, 1),   // seq_choose_screen_content_tools
        (1, 1),   // seq_choose_integer_mv
    ]);
    let mut bs = BitstreamReader::new(&data);
    let hdr = SequenceHeaderObu::decode(&mut bs).unwrap();
    let ti = hdr.timing_info.unwrap();
    assert_eq!(ti.num_units_in_display_tick, 1);
    assert_eq!(ti.time_scale, 2);
    assert!(ti.equal_picture_interval);
    assert_eq!(ti.num_ticks_per_picture_minus_1, Some(0));
    let dmi = ti.decoder_model_info.unwrap();
    assert_eq!(dmi.buffer_delay_length_minus_1, 4);
    assert_eq!(dmi.num_units_in_decoding_tick, 3);
    assert_eq!(dmi.buffer_removal_time_length_minus_1, 2);
    assert_eq!(dmi.frame_presentation_time_length_minus_1, 1);
}
