//! Open Bitstream Unit framing and the Sequence Header OBU decoder.
//!
//! Both decoders are specified by spec-level parsers over the same bit
//! stream model as the cursor: a stream is its length in bits and its
//! value as a natural number, and every decoded field is a quotient or
//! remainder by a power of two. The executable decoders are proved to
//! return exactly what the spec parsers say, error for error.

use crate::bits::{
    bytes_val, leb128_spec, unchanged_model, uvlc_spec, BitstreamError, BitstreamReader,
};
use vstd::arithmetic::power2::{lemma2_to64, pow2};
use vstd::prelude::*;

verus! {

/// Value of the next n bits of a stream of l bits with value v.
pub open spec fn take_bits(l: int, v: nat, n: int) -> nat {
    v / pow2((l - n) as nat)
}

/// The stream value left after reading n bits of a stream of l bits.
pub open spec fn drop_bits(l: int, v: nat, n: int) -> nat {
    v % pow2((l - n) as nat)
}

/// Severity of a reserved-bit-not-zero condition: reject the unit or
/// ignore the bit and continue. Chosen by the caller, not hardwired.
#[derive(Clone, Copy, Debug, PartialEq, Eq, Structural)]
pub enum ValidationPolicy {
    Strict,
    Lenient,
}

/// Closed set of OBU kinds; every 4-bit tag outside the standardized ones
/// maps to `Reserved`.
#[derive(Clone, Copy, Debug, PartialEq, Eq, Structural)]
pub enum ObuType {
    SequenceHeader,
    TemporalDelimiter,
    FrameHeader,
    TileGroup,
    Metadata,
    Frame,
    RedundantFrameHeader,
    TileList,
    Padding,
    Reserved,
}

/// The standardized mapping from the 4-bit OBU type tag.
pub open spec fn obu_type_of_tag(tag: nat) -> ObuType {
    if tag == 1 {
        ObuType::SequenceHeader
    } else if tag == 2 {
        ObuType::TemporalDelimiter
    } else if tag == 3 {
        ObuType::FrameHeader
    } else if tag == 4 {
        ObuType::TileGroup
    } else if tag == 5 {
        ObuType::Metadata
    } else if tag == 6 {
        ObuType::Frame
    } else if tag == 7 {
        ObuType::RedundantFrameHeader
    } else if tag == 8 {
        ObuType::TileList
    } else if tag == 15 {
        ObuType::Padding
    } else {
        ObuType::Reserved
    }
}

impl ObuType {
    /// Maps a 4-bit type tag to its OBU kind.
    pub fn from_tag(tag: u8) -> (r: ObuType)
        ensures
            r == obu_type_of_tag(tag as nat),
    {
        match tag {
            1 => ObuType::SequenceHeader,
            2 => ObuType::TemporalDelimiter,
            3 => ObuType::FrameHeader,
            4 => ObuType::TileGroup,
            5 => ObuType::Metadata,
            6 => ObuType::Frame,
            7 => ObuType::RedundantFrameHeader,
            8 => ObuType::TileList,
            15 => ObuType::Padding,
            _ => ObuType::Reserved,
        }
    }
}

/// Optional extension header: present only when the extension flag bit of
/// the OBU header is set.
#[derive(Clone, Copy, Debug, PartialEq, Eq, Structural)]
pub struct ObuExtensionHeader {
    pub temporal_id: u32,
    pub spatial_id: u32,
}

/// One framed OBU: its type, optional extension header, optional explicit
/// size, and the payload as an offset/length pair into the source buffer.
#[derive(Clone, Copy, Debug, PartialEq, Eq)]
pub struct Obu {
    pub obu_type: ObuType,
    pub extension_header: Option<ObuExtensionHeader>,
    pub size: Option<u64>,
    pub payload_offset: usize,
    pub payload_len: usize,
}

/// Tail of the OBU header: the optional leb128-coded size and the payload
/// bounds, parsed from the stream of l bits with value v that follows the
/// fixed header fields of a buffer of the given bytes.
pub open spec fn parse_obu_size(
    bytes: Seq<u8>,
    tag: nat,
    ext: Option<ObuExtensionHeader>,
    has_size: bool,
    l: int,
    v: nat,
) -> Result<Obu, BitstreamError> {
    let len = bytes.len() as int;
    if has_size {
        match leb128_spec(l, v, 0) {
            None => Err(BitstreamError::EndOfStream),
            Some((sz, l2, _v2)) => {
                let off = (8 * len - l2) / 8;
                if sz > len - off {
                    Err(BitstreamError::EndOfStream)
                } else {
                    Ok(
                        Obu {
                            obu_type: obu_type_of_tag(tag),
                            extension_header: ext,
                            size: Some(sz as u64),
                            payload_offset: off as usize,
                            payload_len: sz as usize,
                        },
                    )
                }
            },
        }
    } else {
        let off = (8 * len - l) / 8;
        Ok(
            Obu {
                obu_type: obu_type_of_tag(tag),
                extension_header: ext,
                size: None,
                payload_offset: off as usize,
                payload_len: (len - off) as usize,
            },
        )
    }
}

/// One OBU header parsed from the front of a buffer: the forbidden bit,
/// the 4-bit type tag, the extension and has-size flags and a reserved
/// bit, then the optional extension header, the optional size, and the
/// payload bounds. Under the strict policy a nonzero forbidden or
/// reserved bit rejects the unit.
pub open spec fn parse_obu(bytes: Seq<u8>, policy: ValidationPolicy) -> Result<
    Obu,
    BitstreamError,
> {
    let len = bytes.len() as int;
    let l0 = 8 * len;
    let v0 = bytes_val(bytes);
    if len < 1 {
        Err(BitstreamError::EndOfStream)
    } else {
        let forbidden = take_bits(l0, v0, 1);
        let l1 = l0 - 1;
        let v1 = drop_bits(l0, v0, 1);
        let tag = take_bits(l1, v1, 4);
        let l2 = l1 - 4;
        let v2 = drop_bits(l1, v1, 4);
        let ext_flag = take_bits(l2, v2, 1) == 1;
        let l3 = l2 - 1;
        let v3 = drop_bits(l2, v2, 1);
        let has_size = take_bits(l3, v3, 1) == 1;
        let l4 = l3 - 1;
        let v4 = drop_bits(l3, v3, 1);
        let reserved1 = take_bits(l4, v4, 1);
        let l5 = l4 - 1;
        let v5 = drop_bits(l4, v4, 1);
        if policy == ValidationPolicy::Strict && (forbidden != 0 || reserved1 != 0) {
            Err(BitstreamError::MalformedField)
        } else if ext_flag {
            if len < 2 {
                Err(BitstreamError::EndOfStream)
            } else {
                let temporal = take_bits(l5, v5, 3);
                let l6 = l5 - 3;
                let v6 = drop_bits(l5, v5, 3);
                let spatial = take_bits(l6, v6, 2);
                let l7 = l6 - 2;
                let v7 = drop_bits(l6, v6, 2);
                let reserved3 = take_bits(l7, v7, 3);
                let l8 = l7 - 3;
                let v8 = drop_bits(l7, v7, 3);
                if policy == ValidationPolicy::Strict && reserved3 != 0 {
                    Err(BitstreamError::MalformedField)
                } else {
                    let ext = Some(
                        ObuExtensionHeader {
                            temporal_id: temporal as u32,
                            spatial_id: spatial as u32,
                        },
                    );
                    parse_obu_size(bytes, tag, ext, has_size, l8, v8)
                }
            }
        } else {
            parse_obu_size(bytes, tag, None, has_size, l5, v5)
        }
    }
}

/// Bitstream profile of the sequence; tags above 2 are not valid.
#[derive(Clone, Copy, Debug, PartialEq, Eq, Structural)]
pub enum Av1Profile {
    Main,
    High,
    Professional,
}

/// Three-way selector carried by the screen-content-tools and integer-mv
/// force fields: the feature is always off, always on, or chosen by the
/// frame-level caller.
#[derive(Clone, Copy, Debug, PartialEq, Eq, Structural)]
pub enum ForceSelector {
    AlwaysFalse,
    AlwaysTrue,
    CallerDecides,
}

/// Decoder model info sub-block of the timing info block.
#[derive(Clone, Copy, Debug, PartialEq, Eq)]
pub struct SequenceHeaderDecoderModelInfo {
    pub buffer_delay_length_minus_1: u8,
    pub num_units_in_decoding_tick: u32,
    pub buffer_removal_time_length_minus_1: u8,
    pub frame_presentation_time_length_minus_1: u8,
}

/// Optional timing info block, itself holding an optional decoder model
/// info sub-block.
#[derive(Clone, Copy, Debug, PartialEq, Eq)]
pub struct SequenceHeaderTimingInfo {
    pub num_units_in_display_tick: u32,
    pub time_scale: u32,
    pub equal_picture_interval: bool,
    pub num_ticks_per_picture_minus_1: Option<u32>,
    pub decoder_model_info: Option<SequenceHeaderDecoderModelInfo>,
}

/// Fully decoded Sequence Header OBU; immutable once decoding succeeds.
#[derive(Clone, Debug, PartialEq, Eq)]
pub struct SequenceHeaderObu {
    pub seq_profile: Av1Profile,
    pub still_picture: bool,
    pub seq_level_idx: Vec<u8>,
    pub timing_info: Option<SequenceHeaderTimingInfo>,
    pub frame_width: u32,
    pub frame_height: u32,
    pub use_128x128_superblock: bool,
    pub enable_filter_intra: bool,
    pub enable_intra_edge_filter: bool,
    pub enable_interintra_compound: bool,
    pub enable_masked_compound: bool,
    pub enable_warped_motion: bool,
    pub enable_dual_filter: bool,
    pub enable_order_hint: bool,
    pub enable_jnt_comp: bool,
    pub enable_ref_frame_mvs: bool,
    pub seq_force_screen_content_tools: ForceSelector,
    pub seq_force_integer_mv: ForceSelector,
    pub order_hint_bits: u8,
}

/// Mathematical model of a decoded sequence header: the same fields with
/// the level-index list as a sequence.
pub struct SeqHdrModel {
    pub seq_profile: Av1Profile,
    pub still_picture: bool,
    pub seq_level_idx: Seq<u8>,
    pub timing_info: Option<SequenceHeaderTimingInfo>,
    pub frame_width: u32,
    pub frame_height: u32,
    pub use_128x128_superblock: bool,
    pub enable_filter_intra: bool,
    pub enable_intra_edge_filter: bool,
    pub enable_interintra_compound: bool,
    pub enable_masked_compound: bool,
    pub enable_warped_motion: bool,
    pub enable_dual_filter: bool,
    pub enable_order_hint: bool,
    pub enable_jnt_comp: bool,
    pub enable_ref_frame_mvs: bool,
    pub seq_force_screen_content_tools: ForceSelector,
    pub seq_force_integer_mv: ForceSelector,
    pub order_hint_bits: u8,
}

impl View for SequenceHeaderObu {
    type V = SeqHdrModel;

    open spec fn view(&self) -> SeqHdrModel {
        SeqHdrModel {
            seq_profile: self.seq_profile,
            still_picture: self.still_picture,
            seq_level_idx: self.seq_level_idx@,
            timing_info: self.timing_info,
            frame_width: self.frame_width,
            frame_height: self.frame_height,
            use_128x128_superblock: self.use_128x128_superblock,
            enable_filter_intra: self.enable_filter_intra,
            enable_intra_edge_filter: self.enable_intra_edge_filter,
            enable_interintra_compound: self.enable_interintra_compound,
            enable_masked_compound: self.enable_masked_compound,
            enable_warped_motion: self.enable_warped_motion,
            enable_dual_filter: self.enable_dual_filter,
            enable_order_hint: self.enable_order_hint,
            enable_jnt_comp: self.enable_jnt_comp,
            enable_ref_frame_mvs: self.enable_ref_frame_mvs,
            seq_force_screen_content_tools: self.seq_force_screen_content_tools,
            seq_force_integer_mv: self.seq_force_integer_mv,
            order_hint_bits: self.order_hint_bits,
        }
    }
}

/// Decoder model info: five fixed-width fields, 47 bits in all.
pub open spec fn dmi_spec(l: int, v: nat) -> Result<
    (SequenceHeaderDecoderModelInfo, int, nat),
    BitstreamError,
> {
    if l < 47 {
        Err(BitstreamError::EndOfStream)
    } else {
        let bdl = take_bits(l, v, 5);
        let la = l - 5;
        let va = drop_bits(l, v, 5);
        let nudt = take_bits(la, va, 32);
        let lb = la - 32;
        let vb = drop_bits(la, va, 32);
        let brt = take_bits(lb, vb, 5);
        let lc = lb - 5;
        let vc = drop_bits(lb, vb, 5);
        let fpt = take_bits(lc, vc, 5);
        let ld = lc - 5;
        let vd = drop_bits(lc, vc, 5);
        Ok(
            (
                SequenceHeaderDecoderModelInfo {
                    buffer_delay_length_minus_1: bdl as u8,
                    num_units_in_decoding_tick: nudt as u32,
                    buffer_removal_time_length_minus_1: brt as u8,
                    frame_presentation_time_length_minus_1: fpt as u8,
                },
                ld,
                vd,
            ),
        )
    }
}

/// Tail of the timing info block: the decoder-model-info presence bit and
/// the sub-block it gates.
pub open spec fn timing_tail_spec(
    nu: u32,
    ts: u32,
    eq_interval: bool,
    ticks: Option<u32>,
    l: int,
    v: nat,
) -> Result<(SequenceHeaderTimingInfo, int, nat), BitstreamError> {
    if l < 1 {
        Err(BitstreamError::EndOfStream)
    } else {
        let dmp = take_bits(l, v, 1) == 1;
        let la = l - 1;
        let va = drop_bits(l, v, 1);
        if dmp {
            match dmi_spec(la, va) {
                Err(e) => Err(e),
                Ok((dmi, lb, vb)) => Ok(
                    (
                        SequenceHeaderTimingInfo {
                            num_units_in_display_tick: nu,
                            time_scale: ts,
                            equal_picture_interval: eq_interval,
                            num_ticks_per_picture_minus_1: ticks,
                            decoder_model_info: Some(dmi),
                        },
                        lb,
                        vb,
                    ),
                ),
            }
        } else {
            Ok(
                (
                    SequenceHeaderTimingInfo {
                        num_units_in_display_tick: nu,
                        time_scale: ts,
                        equal_picture_interval: eq_interval,
                        num_ticks_per_picture_minus_1: ticks,
                        decoder_model_info: None,
                    },
                    la,
                    va,
                ),
            )
        }
    }
}

/// Timing info block: two 32-bit rates, the equal-picture-interval bit
/// with its gated uvlc tick count, then the decoder model tail.
pub open spec fn timing_spec(l: int, v: nat) -> Result<
    (SequenceHeaderTimingInfo, int, nat),
    BitstreamError,
> {
    if l < 65 {
        Err(BitstreamError::EndOfStream)
    } else {
        let nu = take_bits(l, v, 32);
        let la = l - 32;
        let va = drop_bits(l, v, 32);
        let ts = take_bits(la, va, 32);
        let lb = la - 32;
        let vb = drop_bits(la, va, 32);
        let eq_interval = take_bits(lb, vb, 1) == 1;
        let lc = lb - 1;
        let vc = drop_bits(lb, vb, 1);
        if eq_interval {
            match uvlc_spec(lc, vc) {
                None => Err(BitstreamError::EndOfStream),
                Some((t, ld, vd)) => timing_tail_spec(
                    nu as u32,
                    ts as u32,
                    true,
                    Some(t as u32),
                    ld,
                    vd,
                ),
            }
        } else {
            timing_tail_spec(nu as u32, ts as u32, false, None, lc, vc)
        }
    }
}

/// A run of 5-bit level indices, one per operating point.
pub open spec fn levels_spec(l: int, v: nat, count: int) -> Option<(Seq<u8>, int, nat)>
    decreases count,
{
    if count <= 0 {
        Some((Seq::empty(), l, v))
    } else if l < 5 {
        None
    } else {
        let b = take_bits(l, v, 5);
        match levels_spec(l - 5, drop_bits(l, v, 5), count - 1) {
            None => None,
            Some((s, l2, v2)) => Some((seq![b as u8] + s, l2, v2)),
        }
    }
}

/// Frame dimensions: two 4-bit width counts, then each dimension read
/// with that many bits plus one and incremented.
pub open spec fn dims_spec(l: int, v: nat) -> Result<((u32, u32), int, nat), BitstreamError> {
    if l < 8 {
        Err(BitstreamError::EndOfStream)
    } else {
        let wb = take_bits(l, v, 4);
        let la = l - 4;
        let va = drop_bits(l, v, 4);
        let hb = take_bits(la, va, 4);
        let lb = la - 4;
        let vb = drop_bits(la, va, 4);
        if lb < wb + hb + 2 {
            Err(BitstreamError::EndOfStream)
        } else {
            let wm1 = take_bits(lb, vb, wb as int + 1);
            let lc = lb - (wb + 1);
            let vc = drop_bits(lb, vb, wb as int + 1);
            let hm1 = take_bits(lc, vc, hb as int + 1);
            let ld = lc - (hb + 1);
            let vd = drop_bits(lc, vc, hb as int + 1);
            Ok((((wm1 + 1) as u32, (hm1 + 1) as u32), ld, vd))
        }
    }
}

/// Order-hint bit count: a 3-bit count plus one when order hints are
/// enabled, and zero (never read) otherwise.
pub open spec fn ohb_tail_spec(m: SeqHdrModel, l: int, v: nat) -> Result<
    (SeqHdrModel, int, nat),
    BitstreamError,
> {
    if m.enable_order_hint {
        if l < 3 {
            Err(BitstreamError::EndOfStream)
        } else {
            let ohbm1 = take_bits(l, v, 3);
            Ok(
                (
                    SeqHdrModel { order_hint_bits: (ohbm1 + 1) as u8, ..m },
                    l - 3,
                    drop_bits(l, v, 3),
                ),
            )
        }
    } else {
        Ok((SeqHdrModel { order_hint_bits: 0, ..m }, l, v))
    }
}

/// Integer-mv force field: read only when screen content tools are not
/// forced off, as a choose bit and an optional value bit.
pub open spec fn imv_tail_spec(m: SeqHdrModel, l: int, v: nat) -> Result<
    (SeqHdrModel, int, nat),
    BitstreamError,
> {
    if m.seq_force_screen_content_tools == ForceSelector::AlwaysFalse {
        ohb_tail_spec(
            SeqHdrModel { seq_force_integer_mv: ForceSelector::CallerDecides, ..m },
            l,
            v,
        )
    } else if l < 1 {
        Err(BitstreamError::EndOfStream)
    } else {
        let choose = take_bits(l, v, 1) == 1;
        let la = l - 1;
        let va = drop_bits(l, v, 1);
        if choose {
            ohb_tail_spec(
                SeqHdrModel { seq_force_integer_mv: ForceSelector::CallerDecides, ..m },
                la,
                va,
            )
        } else if la < 1 {
            Err(BitstreamError::EndOfStream)
        } else {
            let imv = if take_bits(la, va, 1) == 1 {
                ForceSelector::AlwaysTrue
            } else {
                ForceSelector::AlwaysFalse
            };
            ohb_tail_spec(
                SeqHdrModel { seq_force_integer_mv: imv, ..m },
                la - 1,
                drop_bits(la, va, 1),
            )
        }
    }
}

/// The feature-enable flags, the order-hint pair they gate, and the
/// screen-content force selector; the integer-mv selector and the
/// order-hint bit count follow in `imv_tail_spec`.
pub open spec fn flags_head_spec(
    prof: Av1Profile,
    still: bool,
    timing: Option<SequenceHeaderTimingInfo>,
    idxs: Seq<u8>,
    w: u32,
    h: u32,
    l: int,
    v: nat,
) -> Result<(SeqHdrModel, int, nat), BitstreamError> {
    if l < 8 {
        Err(BitstreamError::EndOfStream)
    } else {
        let sb128 = take_bits(l, v, 1) == 1;
        let l1 = l - 1;
        let v1 = drop_bits(l, v, 1);
        let fi = take_bits(l1, v1, 1) == 1;
        let l2 = l1 - 1;
        let v2 = drop_bits(l1, v1, 1);
        let ief = take_bits(l2, v2, 1) == 1;
        let l3 = l2 - 1;
        let v3 = drop_bits(l2, v2, 1);
        let iic = take_bits(l3, v3, 1) == 1;
        let l4 = l3 - 1;
        let v4 = drop_bits(l3, v3, 1);
        let mc = take_bits(l4, v4, 1) == 1;
        let l5 = l4 - 1;
        let v5 = drop_bits(l4, v4, 1);
        let wm = take_bits(l5, v5, 1) == 1;
        let l6 = l5 - 1;
        let v6 = drop_bits(l5, v5, 1);
        let df = take_bits(l6, v6, 1) == 1;
        let l7 = l6 - 1;
        let v7 = drop_bits(l6, v6, 1);
        let oh = take_bits(l7, v7, 1) == 1;
        let l8 = l7 - 1;
        let v8 = drop_bits(l7, v7, 1);
        if oh && l8 < 2 {
            Err(BitstreamError::EndOfStream)
        } else {
            let jnt = oh && take_bits(l8, v8, 1) == 1;
            let rfm = oh && take_bits(l8 - 1, drop_bits(l8, v8, 1), 1) == 1;
            let l9 = if oh {
                l8 - 2
            } else {
                l8
            };
            let v9 = if oh {
                drop_bits(l8 - 1, drop_bits(l8, v8, 1), 1)
            } else {
                v8
            };
            if l9 < 1 {
                Err(BitstreamError::EndOfStream)
            } else {
                let choose_sct = take_bits(l9, v9, 1) == 1;
                let l10 = l9 - 1;
                let v10 = drop_bits(l9, v9, 1);
                let base = SeqHdrModel {
                    seq_profile: prof,
                    still_picture: still,
                    seq_level_idx: idxs,
                    timing_info: timing,
                    frame_width: w,
                    frame_height: h,
                    use_128x128_superblock: sb128,
                    enable_filter_intra: fi,
                    enable_intra_edge_filter: ief,
                    enable_interintra_compound: iic,
                    enable_masked_compound: mc,
                    enable_warped_motion: wm,
                    enable_dual_filter: df,
                    enable_order_hint: oh,
                    enable_jnt_comp: jnt,
                    enable_ref_frame_mvs: rfm,
                    seq_force_screen_content_tools: ForceSelector::CallerDecides,
                    seq_force_integer_mv: ForceSelector::CallerDecides,
                    order_hint_bits: 0,
                };
                if choose_sct {
                    Ok(
                        (
                            SeqHdrModel {
                                seq_force_screen_content_tools: ForceSelector::CallerDecides,
                                ..base
                            },
                            l10,
                            v10,
                        ),
                    )
                } else if l10 < 1 {
                    Err(BitstreamError::EndOfStream)
                } else {
                    let sct = if take_bits(l10, v10, 1) == 1 {
                        ForceSelector::AlwaysTrue
                    } else {
                        ForceSelector::AlwaysFalse
                    };
                    Ok(
                        (
                            SeqHdrModel { seq_force_screen_content_tools: sct, ..base },
                            l10 - 1,
                            drop_bits(l10, v10, 1),
                        ),
                    )
                }
            }
        }
    }
}

/// The whole flags region: the head above followed by the integer-mv
/// selector and the order-hint bit count.
pub open spec fn flags_spec(
    prof: Av1Profile,
    still: bool,
    timing: Option<SequenceHeaderTimingInfo>,
    idxs: Seq<u8>,
    w: u32,
    h: u32,
    l: int,
    v: nat,
) -> Result<(SeqHdrModel, int, nat), BitstreamError> {
    match flags_head_spec(prof, still, timing, idxs, w, h, l, v) {
        Err(e) => Err(e),
        Ok((m, l2, v2)) => imv_tail_spec(m, l2, v2),
    }
}

/// A whole Sequence Header OBU payload: profile and still-picture flag,
/// optional timing info, per-operating-point level indices, frame
/// dimensions, then the feature flags and force selectors.
pub open spec fn seq_hdr_spec(l: int, v: nat) -> Result<(SeqHdrModel, int, nat), BitstreamError> {
    if l < 3 {
        Err(BitstreamError::EndOfStream)
    } else {
        let prof = take_bits(l, v, 3);
        let la = l - 3;
        let va = drop_bits(l, v, 3);
        if prof >= 3 {
            Err(BitstreamError::MalformedField)
        } else if la < 2 {
            Err(BitstreamError::EndOfStream)
        } else {
            let profile = if prof == 0 {
                Av1Profile::Main
            } else if prof == 1 {
                Av1Profile::High
            } else {
                Av1Profile::Professional
            };
            let still = take_bits(la, va, 1) == 1;
            let lb = la - 1;
            let vb = drop_bits(la, va, 1);
            let tip = take_bits(lb, vb, 1) == 1;
            let lc = lb - 1;
            let vc = drop_bits(lb, vb, 1);
            if tip {
                match timing_spec(lc, vc) {
                    Err(e) => Err(e),
                    Ok((ti, ld, vd)) => seq_hdr_levels_spec(profile, still, Some(ti), ld, vd),
                }
            } else {
                seq_hdr_levels_spec(profile, still, None, lc, vc)
            }
        }
    }
}

/// Level indices, dimensions and flags of the sequence header, after the
/// timing block.
pub open spec fn seq_hdr_levels_spec(
    prof: Av1Profile,
    still: bool,
    timing: Option<SequenceHeaderTimingInfo>,
    l: int,
    v: nat,
) -> Result<(SeqHdrModel, int, nat), BitstreamError> {
    if l < 5 {
        Err(BitstreamError::EndOfStream)
    } else {
        let cnt = take_bits(l, v, 5);
        let la = l - 5;
        let va = drop_bits(l, v, 5);
        match levels_spec(la, va, cnt as int + 1) {
            None => Err(BitstreamError::EndOfStream),
            Some((idxs, lb, vb)) => match dims_spec(lb, vb) {
                Err(e) => Err(e),
                Ok(((w, h), lc, vc)) => flags_spec(prof, still, timing, idxs, w, h, lc, vc),
            },
        }
    }
}

impl Obu {
    /// Parses one OBU header from the front of `buf` and returns the
    /// framed unit, exactly as the spec-level parser describes it.
    pub fn from_buf(buf: &[u8], policy: ValidationPolicy) -> (r: Result<Obu, BitstreamError>)
        ensures
            r == parse_obu(buf@, policy),
    {
        proof {
            lemma2_to64();
        }
        let ghost len = buf@.len() as int;
        let mut reader = BitstreamReader::new(buf);
        let forbidden = match reader.f(1) {
            Ok(x) => x,
            Err(e) => {
                proof {
                    assert(len < 1);
                }
                return Err(e);
            },
        };
        proof {
            assert(len >= 1);
        }
        let tag = match reader.f(4) {
            Ok(x) => x,
            Err(e) => {
                proof {
                    assert(false);
                }
                return Err(e);
            },
        };
        let ext_flag = match reader.f1() {
            Ok(x) => x,
            Err(e) => {
                proof {
                    assert(false);
                }
                return Err(e);
            },
        };
        let has_size = match reader.f1() {
            Ok(x) => x,
            Err(e) => {
                proof {
                    assert(false);
                }
                return Err(e);
            },
        };
        let reserved1 = match reader.f(1) {
            Ok(x) => x,
            Err(e) => {
                proof {
                    assert(false);
                }
                return Err(e);
            },
        };
        if policy == ValidationPolicy::Strict && (forbidden != 0 || reserved1 != 0) {
            return Err(BitstreamError::MalformedField);
        }
        let extension_header: Option<ObuExtensionHeader>;
        if ext_flag {
            let temporal_id = match reader.f(3) {
                Ok(x) => x,
                Err(e) => {
                    proof {
                        assert(8 * len - 8 < 3);
                        assert(len < 2);
                    }
                    return Err(e);
                },
            };
            proof {
                assert(len >= 2);
            }
            let spatial_id = match reader.f(2) {
                Ok(x) => x,
                Err(e) => {
                    proof {
                        assert(false);
                    }
                    return Err(e);
                },
            };
            let reserved3 = match reader.f(3) {
                Ok(x) => x,
                Err(e) => {
                    proof {
                        assert(false);
                    }
                    return Err(e);
                },
            };
            if policy == ValidationPolicy::Strict && reserved3 != 0 {
                return Err(BitstreamError::MalformedField);
            }
            extension_header = Some(ObuExtensionHeader { temporal_id, spatial_id });
        } else {
            extension_header = None;
        }
        let obu_type = ObuType::from_tag(tag as u8);
        if has_size {
            let ghost lpre = reader.unread_len();
            let ghost vpre = reader.unread_val();
            let size = match reader.leb128() {
                Ok(x) => x,
                Err(e) => {
                    return Err(e);
                },
            };
            let offset = reader.byte_position();
            let rem: usize = buf.len() - offset;
            if size > (rem as u64) {
                return Err(BitstreamError::EndOfStream);
            }
            Ok(
                Obu {
                    obu_type,
                    extension_header,
                    size: Some(size),
                    payload_offset: offset,
                    payload_len: size as usize,
                },
            )
        } else {
            let offset = reader.byte_position();
            Ok(
                Obu {
                    obu_type,
                    extension_header,
                    size: None,
                    payload_offset: offset,
                    payload_len: buf.len() - offset,
                },
            )
        }
    }
}


/// Reads the decoder model info sub-block.
fn decode_dmi(reader: &mut BitstreamReader<'_>) -> (res: Result<
    SequenceHeaderDecoderModelInfo,
    BitstreamError,
>)
    requires
        old(reader).wf(),
    ensures
        final(reader).wf(),
        final(reader).source() == old(reader).source(),
        res is Ok <==> dmi_spec(old(reader).unread_len(), old(reader).unread_val()) is Ok,
        res is Ok ==> dmi_spec(old(reader).unread_len(), old(reader).unread_val()) == Ok::<
            _,
            BitstreamError,
        >((res->Ok_0, final(reader).unread_len(), final(reader).unread_val())),
        res is Err ==> dmi_spec(old(reader).unread_len(), old(reader).unread_val()) == Err::<
            (SequenceHeaderDecoderModelInfo, int, nat),
            _,
        >(res->Err_0),
{
    proof {
        lemma2_to64();
    }
    let bdl = match reader.f(5) {
        Ok(x) => x,
        Err(e) => {
            return Err(e);
        },
    };
    let nudt = match reader.f(32) {
        Ok(x) => x,
        Err(e) => {
            return Err(e);
        },
    };
    let brt = match reader.f(5) {
        Ok(x) => x,
        Err(e) => {
            return Err(e);
        },
    };
    let fpt = match reader.f(5) {
        Ok(x) => x,
        Err(e) => {
            return Err(e);
        },
    };
    Ok(
        SequenceHeaderDecoderModelInfo {
            buffer_delay_length_minus_1: bdl as u8,
            num_units_in_decoding_tick: nudt,
            buffer_removal_time_length_minus_1: brt as u8,
            frame_presentation_time_length_minus_1: fpt as u8,
        },
    )
}

/// Reads the timing info block.
fn decode_timing(reader: &mut BitstreamReader<'_>) -> (res: Result<
    SequenceHeaderTimingInfo,
    BitstreamError,
>)
    requires
        old(reader).wf(),
    ensures
        final(reader).wf(),
        final(reader).source() == old(reader).source(),
        res is Ok <==> timing_spec(old(reader).unread_len(), old(reader).unread_val()) is Ok,
        res is Ok ==> timing_spec(old(reader).unread_len(), old(reader).unread_val()) == Ok::<
            _,
            BitstreamError,
        >((res->Ok_0, final(reader).unread_len(), final(reader).unread_val())),
        res is Err ==> timing_spec(old(reader).unread_len(), old(reader).unread_val()) == Err::<
            (SequenceHeaderTimingInfo, int, nat),
            _,
        >(res->Err_0),
{
    proof {
        lemma2_to64();
    }
    let nu = match reader.f(32) {
        Ok(x) => x,
        Err(e) => {
            return Err(e);
        },
    };
    let ts = match reader.f(32) {
        Ok(x) => x,
        Err(e) => {
            return Err(e);
        },
    };
    let eq_interval = match reader.f1() {
        Ok(x) => x,
        Err(e) => {
            return Err(e);
        },
    };
    let ticks: Option<u32>;
    if eq_interval {
        let t = match reader.uvlc() {
            Ok(x) => x,
            Err(e) => {
                return Err(e);
            },
        };
        ticks = Some(t);
    } else {
        ticks = None;
    }
    let dmp = match reader.f1() {
        Ok(x) => x,
        Err(e) => {
            return Err(e);
        },
    };
    let decoder_model_info: Option<SequenceHeaderDecoderModelInfo>;
    if dmp {
        let dmi = match decode_dmi(reader) {
            Ok(x) => x,
            Err(e) => {
                return Err(e);
            },
        };
        decoder_model_info = Some(dmi);
    } else {
        decoder_model_info = None;
    }
    Ok(
        SequenceHeaderTimingInfo {
            num_units_in_display_tick: nu,
            time_scale: ts,
            equal_picture_interval: eq_interval,
            num_ticks_per_picture_minus_1: ticks,
            decoder_model_info,
        },
    )
}

/// Reads one 5-bit level index per operating point.
fn decode_levels(reader: &mut BitstreamReader<'_>, count: u8) -> (res: Result<
    Vec<u8>,
    BitstreamError,
>)
    requires
        old(reader).wf(),
    ensures
        final(reader).wf(),
        final(reader).source() == old(reader).source(),
        res is Ok <==> levels_spec(
            old(reader).unread_len(),
            old(reader).unread_val(),
            count as int,
        ) is Some,
        res is Ok ==> levels_spec(old(reader).unread_len(), old(reader).unread_val(), count as int)
            == Some((res->Ok_0@, final(reader).unread_len(), final(reader).unread_val())),
        res is Err ==> res->Err_0 == BitstreamError::EndOfStream,
{
    proof {
        lemma2_to64();
    }
    let ghost l0 = reader.unread_len();
    let ghost v0 = reader.unread_val();
    let mut out: Vec<u8> = Vec::new();
    let mut i: u8 = 0;
    proof {
        assert(Seq::<u8>::empty() + levels_spec(l0, v0, count as int)->Some_0.0 =~= levels_spec(
            l0,
            v0,
            count as int,
        )->Some_0.0);
    }
    while i < count
        invariant
            reader.wf(),
            reader.source() == old(reader).source(),
            l0 == old(reader).unread_len(),
            v0 == old(reader).unread_val(),
            i <= count,
            out@.len() == i as int,
            ({
                match levels_spec(reader.unread_len(), reader.unread_val(), count - i) {
                    Some((s, l2, v2)) => levels_spec(l0, v0, count as int) == Some(
                        (out@ + s, l2, v2),
                    ),
                    None => levels_spec(l0, v0, count as int) is None,
                }
            }),
        decreases count - i,
    {
        let ghost li = reader.unread_len();
        let ghost vi = reader.unread_val();
        match reader.f(5) {
            Err(e) => {
                proof {
                    assert(levels_spec(li, vi, count - i) is None);
                }
                return Err(e);
            },
            Ok(b) => {
                proof {
                    lemma2_to64();
                    assert(b < 32);
                    if levels_spec(reader.unread_len(), reader.unread_val(), count - i - 1)
                        is Some {
                        let (s, l2, v2) = levels_spec(
                            reader.unread_len(),
                            reader.unread_val(),
                            count - i - 1,
                        )->Some_0;
                        assert(levels_spec(li, vi, count - i) == Some(
                            (seq![b as u8] + s, l2, v2),
                        ));
                        assert(out@ + (seq![b as u8] + s) =~= (out@ + seq![b as u8]) + s);
                    } else {
                        assert(levels_spec(li, vi, count - i) is None);
                    }
                }
                let ghost outpre = out@;
                out.push(b as u8);
                proof {
                    assert(out@ =~= outpre + seq![b as u8]);
                }
                i = i + 1;
            },
        }
    }
    proof {
        assert(levels_spec(reader.unread_len(), reader.unread_val(), 0) == Some(
            (Seq::<u8>::empty(), reader.unread_len(), reader.unread_val()),
        ));
        assert(out@ + Seq::<u8>::empty() =~= out@);
    }
    Ok(out)
}


/// Reads the integer-mv force selector and the order-hint bit count into
/// a header whose earlier fields are already in place.
#[verifier::rlimit(100)]
#[verifier::spinoff_prover]
fn decode_forces(reader: &mut BitstreamReader<'_>, partial: SequenceHeaderObu) -> (res: Result<
    SequenceHeaderObu,
    BitstreamError,
>)
    requires
        old(reader).wf(),
    ensures
        final(reader).wf(),
        final(reader).source() == old(reader).source(),
        res is Ok <==> imv_tail_spec(partial@, old(reader).unread_len(), old(reader).unread_val())
            is Ok,
        res is Ok ==> ({
            let (m, l2, v2) = imv_tail_spec(
                partial@,
                old(reader).unread_len(),
                old(reader).unread_val(),
            )->Ok_0;
            &&& res->Ok_0@ == m
            &&& final(reader).unread_len() == l2
            &&& final(reader).unread_val() == v2
        }),
        res is Err ==> imv_tail_spec(
            partial@,
            old(reader).unread_len(),
            old(reader).unread_val(),
        ) == Err::<(SeqHdrModel, int, nat), _>(res->Err_0),
{
    proof {
        lemma2_to64();
    }
    let mut hdr = partial;
    if hdr.seq_force_screen_content_tools == ForceSelector::AlwaysFalse {
        hdr.seq_force_integer_mv = ForceSelector::CallerDecides;
    } else {
        let choose_imv = match reader.f1() {
            Ok(x) => x,
            Err(e) => {
                return Err(e);
            },
        };
        if choose_imv {
            hdr.seq_force_integer_mv = ForceSelector::CallerDecides;
        } else {
            let bit = match reader.f1() {
                Ok(x) => x,
                Err(e) => {
                    return Err(e);
                },
            };
            hdr.seq_force_integer_mv = if bit {
                ForceSelector::AlwaysTrue
            } else {
                ForceSelector::AlwaysFalse
            };
        }
    }
    if hdr.enable_order_hint {
        let ohbm1 = match reader.f(3) {
            Ok(x) => x,
            Err(e) => {
                return Err(e);
            },
        };
        proof {
            assert(ohbm1 < 8);
        }
        hdr.order_hint_bits = (ohbm1 as u8) + 1;
    } else {
        hdr.order_hint_bits = 0;
    }
    Ok(hdr)
}

/// Reads the feature flags, the order-hint pair they gate and the
/// screen-content force selector.
#[verifier::rlimit(100)]
#[verifier::spinoff_prover]
fn decode_flags_head(
    reader: &mut BitstreamReader<'_>,
    prof: Av1Profile,
    still: bool,
    timing: Option<SequenceHeaderTimingInfo>,
    idxs: Vec<u8>,
    w: u32,
    h: u32,
) -> (res: Result<SequenceHeaderObu, BitstreamError>)
    requires
        old(reader).wf(),
    ensures
        final(reader).wf(),
        final(reader).source() == old(reader).source(),
        res is Ok <==> flags_head_spec(
            prof,
            still,
            timing,
            idxs@,
            w,
            h,
            old(reader).unread_len(),
            old(reader).unread_val(),
        ) is Ok,
        res is Ok ==> ({
            let (m, l2, v2) = flags_head_spec(
                prof,
                still,
                timing,
                idxs@,
                w,
                h,
                old(reader).unread_len(),
                old(reader).unread_val(),
            )->Ok_0;
            &&& res->Ok_0@ == m
            &&& final(reader).unread_len() == l2
            &&& final(reader).unread_val() == v2
        }),
        res is Err ==> flags_head_spec(
            prof,
            still,
            timing,
            idxs@,
            w,
            h,
            old(reader).unread_len(),
            old(reader).unread_val(),
        ) == Err::<(SeqHdrModel, int, nat), _>(res->Err_0),
{
    proof {
        lemma2_to64();
    }
    let sb128 = match reader.f1() {
        Ok(x) => x,
        Err(e) => {
            return Err(e);
        },
    };
    let fi = match reader.f1() {
        Ok(x) => x,
        Err(e) => {
            return Err(e);
        },
    };
    let ief = match reader.f1() {
        Ok(x) => x,
        Err(e) => {
            return Err(e);
        },
    };
    let iic = match reader.f1() {
        Ok(x) => x,
        Err(e) => {
            return Err(e);
        },
    };
    let mc = match reader.f1() {
        Ok(x) => x,
        Err(e) => {
            return Err(e);
        },
    };
    let wm = match reader.f1() {
        Ok(x) => x,
        Err(e) => {
            return Err(e);
        },
    };
    let df = match reader.f1() {
        Ok(x) => x,
        Err(e) => {
            return Err(e);
        },
    };
    let oh = match reader.f1() {
        Ok(x) => x,
        Err(e) => {
            return Err(e);
        },
    };
    let mut jnt = false;
    let mut rfm = false;
    if oh {
        jnt = match reader.f1() {
            Ok(x) => x,
            Err(e) => {
                return Err(e);
            },
        };
        rfm = match reader.f1() {
            Ok(x) => x,
            Err(e) => {
                return Err(e);
            },
        };
    }
    let choose_sct = match reader.f1() {
        Ok(x) => x,
        Err(e) => {
            return Err(e);
        },
    };
    let sct: ForceSelector;
    if choose_sct {
        sct = ForceSelector::CallerDecides;
    } else {
        let bit = match reader.f1() {
            Ok(x) => x,
            Err(e) => {
                return Err(e);
            },
        };
        sct = if bit {
            ForceSelector::AlwaysTrue
        } else {
            ForceSelector::AlwaysFalse
        };
    }
    let partial = SequenceHeaderObu {
        seq_profile: prof,
        still_picture: still,
        seq_level_idx: idxs,
        timing_info: timing,
        frame_width: w,
        frame_height: h,
        use_128x128_superblock: sb128,
        enable_filter_intra: fi,
        enable_intra_edge_filter: ief,
        enable_interintra_compound: iic,
        enable_masked_compound: mc,
        enable_warped_motion: wm,
        enable_dual_filter: df,
        enable_order_hint: oh,
        enable_jnt_comp: jnt,
        enable_ref_frame_mvs: rfm,
        seq_force_screen_content_tools: sct,
        seq_force_integer_mv: ForceSelector::CallerDecides,
        order_hint_bits: 0,
    };
    Ok(partial)
}

/// Reads the whole flags region: head, then forces and order-hint count.
fn decode_flags(
    reader: &mut BitstreamReader<'_>,
    prof: Av1Profile,
    still: bool,
    timing: Option<SequenceHeaderTimingInfo>,
    idxs: Vec<u8>,
    w: u32,
    h: u32,
) -> (res: Result<SequenceHeaderObu, BitstreamError>)
    requires
        old(reader).wf(),
    ensures
        final(reader).wf(),
        final(reader).source() == old(reader).source(),
        res is Ok <==> flags_spec(
            prof,
            still,
            timing,
            idxs@,
            w,
            h,
            old(reader).unread_len(),
            old(reader).unread_val(),
        ) is Ok,
        res is Ok ==> ({
            let (m, l2, v2) = flags_spec(
                prof,
                still,
                timing,
                idxs@,
                w,
                h,
                old(reader).unread_len(),
                old(reader).unread_val(),
            )->Ok_0;
            &&& res->Ok_0@ == m
            &&& final(reader).unread_len() == l2
            &&& final(reader).unread_val() == v2
        }),
        res is Err ==> flags_spec(
            prof,
            still,
            timing,
            idxs@,
            w,
            h,
            old(reader).unread_len(),
            old(reader).unread_val(),
        ) == Err::<(SeqHdrModel, int, nat), _>(res->Err_0),
{
    let partial = match decode_flags_head(reader, prof, still, timing, idxs, w, h) {
        Ok(x) => x,
        Err(e) => {
            return Err(e);
        },
    };
    decode_forces(reader, partial)
}

/// Reads the level indices, dimensions and flags that follow the timing
/// block.
#[verifier::rlimit(100)]
#[verifier::spinoff_prover]
fn decode_tail(
    reader: &mut BitstreamReader<'_>,
    prof: Av1Profile,
    still: bool,
    timing: Option<SequenceHeaderTimingInfo>,
) -> (res: Result<SequenceHeaderObu, BitstreamError>)
    requires
        old(reader).wf(),
    ensures
        final(reader).wf(),
        final(reader).source() == old(reader).source(),
        res is Ok <==> seq_hdr_levels_spec(
            prof,
            still,
            timing,
            old(reader).unread_len(),
            old(reader).unread_val(),
        ) is Ok,
        res is Ok ==> ({
            let (m, l2, v2) = seq_hdr_levels_spec(
                prof,
                still,
                timing,
                old(reader).unread_len(),
                old(reader).unread_val(),
            )->Ok_0;
            &&& res->Ok_0@ == m
            &&& final(reader).unread_len() == l2
            &&& final(reader).unread_val() == v2
        }),
        res is Err ==> seq_hdr_levels_spec(
            prof,
            still,
            timing,
            old(reader).unread_len(),
            old(reader).unread_val(),
        ) == Err::<(SeqHdrModel, int, nat), _>(res->Err_0),
{
    proof {
        lemma2_to64();
    }
    let cnt = match reader.f(5) {
        Ok(x) => x,
        Err(e) => {
            return Err(e);
        },
    };
    proof {
        assert(cnt < 32);
    }
    let idxs = match decode_levels(reader, (cnt as u8) + 1) {
        Ok(x) => x,
        Err(e) => {
            return Err(e);
        },
    };
    let wb = match reader.f(4) {
        Ok(x) => x,
        Err(e) => {
            return Err(e);
        },
    };
    let hb = match reader.f(4) {
        Ok(x) => x,
        Err(e) => {
            return Err(e);
        },
    };
    proof {
        assert(wb < 16 && hb < 16);
    }
    let wm1 = match reader.f((wb as u8) + 1) {
        Ok(x) => x,
        Err(e) => {
            return Err(e);
        },
    };
    let hm1 = match reader.f((hb as u8) + 1) {
        Ok(x) => x,
        Err(e) => {
            return Err(e);
        },
    };
    proof {
        vstd::arithmetic::power2::lemma_pow2_strictly_increases((wb + 1) as nat, 32);
        vstd::arithmetic::power2::lemma_pow2_strictly_increases((hb + 1) as nat, 32);
    }
    let width: u32 = wm1 + 1;
    let height: u32 = hm1 + 1;
    decode_flags(reader, prof, still, timing, idxs, width, height)
}

impl SequenceHeaderObu {
    /// Decodes a whole Sequence Header OBU from a cursor positioned at the
    /// start of its payload. Decoding aborts on the first field failure
    /// with the cursor restored; no partially filled header is returned.
    #[verifier::rlimit(100)]
    #[verifier::spinoff_prover]
    pub fn decode(reader: &mut BitstreamReader<'_>) -> (res: Result<
        SequenceHeaderObu,
        BitstreamError,
    >)
        requires
            old(reader).wf(),
        ensures
            final(reader).wf(),
            final(reader).source() == old(reader).source(),
            res is Ok <==> seq_hdr_spec(old(reader).unread_len(), old(reader).unread_val())
                is Ok,
            res is Ok ==> ({
                let (m, l2, v2) = seq_hdr_spec(
                    old(reader).unread_len(),
                    old(reader).unread_val(),
                )->Ok_0;
                &&& res->Ok_0@ == m
                &&& final(reader).unread_len() == l2
                &&& final(reader).unread_val() == v2
            }),
            res is Err ==> seq_hdr_spec(old(reader).unread_len(), old(reader).unread_val())
                == Err::<(SeqHdrModel, int, nat), _>(res->Err_0) && unchanged_model(
                *old(reader),
                *final(reader),
            ),
    {
        proof {
            lemma2_to64();
        }
        let saved: BitstreamReader<'_> = *reader;
        let prof_bits = match reader.f(3) {
            Ok(x) => x,
            Err(e) => {
                *reader = saved;
                return Err(e);
            },
        };
        if prof_bits >= 3 {
            *reader = saved;
            return Err(BitstreamError::MalformedField);
        }
        let profile = if prof_bits == 0 {
            Av1Profile::Main
        } else if prof_bits == 1 {
            Av1Profile::High
        } else {
            Av1Profile::Professional
        };
        let still = match reader.f1() {
            Ok(x) => x,
            Err(e) => {
                *reader = saved;
                return Err(e);
            },
        };
        let tip = match reader.f1() {
            Ok(x) => x,
            Err(e) => {
                *reader = saved;
                return Err(e);
            },
        };
        let timing: Option<SequenceHeaderTimingInfo>;
        if tip {
            let ti = match decode_timing(reader) {
                Ok(x) => x,
                Err(e) => {
                    *reader = saved;
                    return Err(e);
                },
            };
            timing = Some(ti);
        } else {
            timing = None;
        }
        match decode_tail(reader, profile, still, timing) {
            Ok(hdr) => Ok(hdr),
            Err(e) => {
                *reader = saved;
                Err(e)
            },
        }
    }
}

} // verus!
