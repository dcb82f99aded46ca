//! Bit-level parsing foundation for an AV1 elementary-bitstream reader:
//! a bit-addressable cursor over a byte buffer implementing the format's
//! numeric code families, and OBU framing with full decode of the
//! Sequence Header OBU.

pub mod bits;
pub mod obu;
