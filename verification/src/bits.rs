//! Bit-addressable cursor over a byte buffer, reading most-significant bit
//! first, with the numeric code families of the AV1 low-overhead bitstream:
//! `f(n)`, `uvlc()`, `le(n)`, `leb128()`, `su(n)` and `ns(n)`.
//!
//! The unread part of the stream is modelled as a pair: its length in bits
//! and its value as a natural number (first unread bit most significant).
//! Every read contract is stated as division/remainder by a power of two
//! over that model. Reads fail atomically: on an error the cursor holds
//! exactly the bits it held before.

use vstd::arithmetic::div_mod::{
    lemma_basic_div, lemma_div_by_multiple, lemma_div_denominator, lemma_fundamental_div_mod,
    lemma_fundamental_div_mod_converse, lemma_hoist_over_denominator, lemma_mod_mod,
    lemma_mod_multiples_basic, lemma_mod_multiples_vanish, lemma_multiply_divide_lt,
    lemma_small_mod,
};
use vstd::arithmetic::power2::{
    lemma2_to64, lemma2_to64_rest, lemma_pow2_adds, lemma_pow2_strictly_increases, pow2,
};
use vstd::bits::{lemma_u32_shl_is_mul, lemma_u32_shr_is_div, lemma_u64_shl_is_mul};
use vstd::prelude::*;

verus! {

broadcast use vstd::arithmetic::power2::lemma_pow2_pos;

/// Failure of a read or of a structure decode built on reads.
#[derive(Clone, Copy, Debug, PartialEq, Eq, Structural)]
pub enum BitstreamError {
    /// Fewer bits remain unread than the read demands.
    EndOfStream,
    /// A field holds a value the format forbids.
    MalformedField,
}

/// Value of a byte sequence read most-significant byte first.
pub open spec fn bytes_val(s: Seq<u8>) -> nat
    decreases s.len(),
{
    if s.len() == 0 {
        0
    } else {
        (256 * bytes_val(s.drop_last()) + s.last()) as nat
    }
}

/// A byte sequence of n bytes holds a value below 2^(8n).
pub proof fn lemma_bytes_val_bound(s: Seq<u8>)
    ensures
        bytes_val(s) < pow2((8 * s.len()) as nat),
    decreases s.len(),
{
    lemma2_to64();
    if s.len() > 0 {
        let d = s.drop_last();
        lemma_bytes_val_bound(d);
        lemma_pow2_adds((8 * d.len()) as nat, 8);
        assert(256 * bytes_val(d) + s.last() < pow2((8 * d.len()) as nat) * 256)
            by (nonlinear_arith)
            requires
                bytes_val(d) < pow2((8 * d.len()) as nat),
                s.last() < 256,
        ;
    }
}

/// Peeling the first byte off a sequence splits its value.
pub proof fn lemma_bytes_val_first(s: Seq<u8>)
    requires
        s.len() > 0,
    ensures
        bytes_val(s) == s[0] * pow2((8 * (s.len() - 1)) as nat) + bytes_val(s.skip(1)),
    decreases s.len(),
{
    lemma2_to64();
    if s.len() == 1 {
        assert(s.drop_last().len() == 0);
        assert(s.skip(1).len() == 0);
        assert(bytes_val(s.drop_last()) == 0);
        assert(bytes_val(s.skip(1)) == 0);
        assert(s.last() == s[0]);
        assert(bytes_val(s) == (256 * bytes_val(s.drop_last()) + s.last()) as nat);
        assert(pow2((8 * (s.len() - 1)) as nat) == 1);
    } else {
        let d = s.drop_last();
        lemma_bytes_val_first(d);
        assert(d[0] == s[0]);
        assert(d.skip(1) =~= s.skip(1).drop_last());
        assert(s.skip(1).last() == s.last());
        assert(s.skip(1).len() == s.len() - 1);
        assert(bytes_val(s.skip(1)) == (256 * bytes_val(s.skip(1).drop_last())
            + s.skip(1).last()) as nat);
        lemma_pow2_adds((8 * (s.len() - 2)) as nat, 8);
        assert(256 * (s[0] * pow2((8 * (s.len() - 2)) as nat))
            == s[0] * pow2((8 * (s.len() - 1)) as nat)) by (nonlinear_arith)
            requires
                pow2((8 * (s.len() - 1)) as nat) == pow2((8 * (s.len() - 2)) as nat) * 256,
        ;
        assert(bytes_val(s) == (256 * bytes_val(d) + s.last()) as nat);
        assert(256 * (s[0] * pow2((8 * (s.len() - 2)) as nat) + bytes_val(s.skip(1).drop_last()))
            == 256 * (s[0] * pow2((8 * (s.len() - 2)) as nat)) + 256 * bytes_val(
            s.skip(1).drop_last(),
        ));
        assert(bytes_val(s) == 256 * (s[0] * pow2((8 * (s.len() - 2)) as nat)) + (256 * bytes_val(
            s.skip(1).drop_last(),
        ) + s.skip(1).last()));
        assert(bytes_val(s) == s[0] * pow2((8 * (s.len() - 1)) as nat) + bytes_val(s.skip(1)));
    }
}

/// A bit string of d+t bits formed as a above b (b of t bits): taking the
/// top d bits yields a, and the remainder is b under a's low part.
proof fn lemma_stream_split(a: nat, b: nat, t: nat, d: nat)
    requires
        b < pow2(t),
    ensures
        (a * pow2(t) + b) / pow2((d + t) as nat) == a / pow2(d),
        (a * pow2(t) + b) % pow2((d + t) as nat) == (a % pow2(d)) * pow2(t) + b,
{
    let hi = a / pow2(d);
    let lo = a % pow2(d);
    lemma_fundamental_div_mod(a as int, pow2(d) as int);
    lemma_pow2_adds(d, t);
    assert(lo < pow2(d)) by {
        vstd::arithmetic::div_mod::lemma_mod_bound(a as int, pow2(d) as int);
    }
    assert(a * pow2(t) + b == hi * pow2((d + t) as nat) + (lo * pow2(t) + b))
        by (nonlinear_arith)
        requires
            a == pow2(d) * hi + lo,
            pow2((d + t) as nat) == pow2(d) * pow2(t),
    ;
    assert(lo * pow2(t) + b < pow2((d + t) as nat)) by (nonlinear_arith)
        requires
            lo < pow2(d),
            b < pow2(t),
            pow2((d + t) as nat) == pow2(d) * pow2(t),
            pow2(t) > 0,
    ;
    lemma_fundamental_div_mod_converse(
        (a * pow2(t) + b) as int,
        pow2((d + t) as nat) as int,
        hi as int,
        (lo * pow2(t) + b) as int,
    );
}

/// Reducing modulo a smaller power of two collapses an outer reduction.
proof fn lemma_mod_pow2_collapse(v: nat, big: nat, small: nat)
    requires
        small <= big,
    ensures
        (v % pow2(big)) % pow2(small) == v % pow2(small),
{
    lemma_pow2_adds(small, (big - small) as nat);
    lemma_mod_mod(v as int, pow2(small) as int, pow2((big - small) as nat) as int);
}

/// Left shift of a u32 is multiplication modulo 2^32.
proof fn lemma_u32_shl_mod(x: u32, n: u32)
    requires
        n < 32,
    ensures
        (x << n) as nat == (x as nat * pow2(n as nat)) % pow2(32),
{
    lemma2_to64();
    lemma2_to64_rest();
    if n > 0 {
        lemma_pow2_strictly_increases(n as nat, 32);
    }
    assert(x as nat * pow2(n as nat) <= 0xffff_ffff * pow2(31)) by (nonlinear_arith)
        requires
            x <= 0xffff_ffffnat,
            pow2(n as nat) <= pow2(31),
    ;
    lemma_u64_shl_is_mul(x as u64, n as u64);
    assert((x << n) as u64 == ((x as u64) << (n as u64)) % 0x1_0000_0000) by (bit_vector)
        requires
            n < 32,
    ;
}

/// Bit cursor over a borrowed byte buffer. A 32-bit accumulator holds the
/// next unread bits left-aligned; `remaining` counts the valid bits in it;
/// `eof` records that a refill already hit the end of the source.
#[derive(Clone, Copy)]
pub struct BitstreamReader<'a> {
    bytes: &'a [u8],
    pos: usize,
    buf: u32,
    remaining: u8,
    eof: bool,
}

impl<'a> BitstreamReader<'a> {
    /// The byte source this cursor was created over.
    pub closed spec fn source(self) -> Seq<u8> {
        self.bytes@
    }

    /// Bits of the source not yet handed into the accumulator.
    spec fn tail_bits(self) -> int {
        8 * (self.bytes@.len() as int - self.pos as int)
    }

    /// Value of the valid (top) bits of the accumulator.
    spec fn acc_val(self) -> nat {
        self.buf as nat / pow2((32 - self.remaining) as nat)
    }

    /// Number of unread bits.
    pub closed spec fn unread_len(self) -> int {
        self.remaining as int + self.tail_bits()
    }

    /// Value of the unread bits, first unread bit most significant.
    pub closed spec fn unread_val(self) -> nat {
        self.acc_val() * pow2(self.tail_bits() as nat)
            + bytes_val(self.bytes@.skip(self.pos as int))
    }

    /// Internal invariant: the accumulator never claims more than 32 valid
    /// bits nor more bits than bytes consumed, its unused low bits are zero,
    /// and the exhausted flag is set only once the source is drained.
    pub closed spec fn wf(self) -> bool {
        &&& self.pos <= self.bytes@.len()
        &&& self.remaining <= 32
        &&& self.remaining as int <= 8 * self.pos as int
        &&& (self.eof ==> self.pos == self.bytes@.len())
        &&& self.buf as nat % pow2((32 - self.remaining) as nat) == 0
    }

    /// The unread model is bounded: a well-formed cursor holds between 0 and
    /// 8·len bits, and their value is below 2^bits.
    pub proof fn lemma_wf_bounds(self)
        requires
            self.wf(),
        ensures
            0 <= self.unread_len() <= 8 * self.source().len(),
            self.unread_val() < pow2(self.unread_len() as nat),
    {
        lemma2_to64();
        lemma2_to64_rest();
        let r = self.remaining as nat;
        let t = self.tail_bits() as nat;
        let b = bytes_val(self.bytes@.skip(self.pos as int));
        lemma_bytes_val_bound(self.bytes@.skip(self.pos as int));
        assert(self.bytes@.skip(self.pos as int).len() == self.bytes@.len() - self.pos);
        lemma_pow2_adds((32 - r) as nat, r);
        assert(self.buf < pow2((32 - r) as nat) * pow2(r));
        lemma_multiply_divide_lt(self.buf as int, pow2((32 - r) as nat) as int, pow2(r) as int);
        assert(self.acc_val() < pow2(r));
        lemma_pow2_adds(r, t);
        assert(self.acc_val() * pow2(t) + b < pow2(r) * pow2(t)) by (nonlinear_arith)
            requires
                self.acc_val() < pow2(r),
                b < pow2(t),
                pow2(t) > 0,
        ;
    }

    /// Creates a cursor at the first bit of `bytes`.
    pub fn new(bytes: &'a [u8]) -> (r: Self)
        ensures
            r.wf(),
            r.source() == bytes@,
            r.unread_len() == 8 * bytes@.len(),
            r.unread_val() == bytes_val(bytes@),
    {
        let r = BitstreamReader { bytes, pos: 0, buf: 0, remaining: 0, eof: false };
        proof {
            lemma2_to64();
            lemma2_to64_rest();
            lemma_small_mod(0, pow2(32));
            assert(r.bytes@.skip(0) =~= bytes@);
            assert(0nat / pow2(32) == 0) by (nonlinear_arith)
                requires
                    pow2(32) > 0,
            ;
            assert(r.acc_val() == 0nat);
        }
        r
    }

    /// Takes the top n valid bits out of the accumulator.
    fn take_acc(&mut self, n: u8) -> (v: u32)
        requires
            old(self).wf(),
            1 <= n <= old(self).remaining,
        ensures
            final(self).wf(),
            final(self).bytes@ == old(self).bytes@,
            final(self).pos == old(self).pos,
            final(self).eof == old(self).eof,
            final(self).remaining == old(self).remaining - n,
            v as nat == old(self).acc_val() / pow2((old(self).remaining - n) as nat),
            final(self).acc_val() == old(self).acc_val() % pow2((old(self).remaining - n) as nat),
            v < pow2(n as nat),
    {
        let sh: u32 = 32 - (n as u32);
        let v: u32 = self.buf >> sh;
        let buf0 = self.buf;
        self.buf = if n == 32 {
            0u32
        } else {
            self.buf << (n as u32)
        };
        proof {
            lemma2_to64();
            lemma2_to64_rest();
            let r0 = old(self).remaining as nat;
            let d = (r0 - n) as nat;
            let a = old(self).acc_val();
            lemma_u32_shr_is_div(buf0, sh);
            // buf0 is the accumulator value left-aligned: buf0 == a * 2^(32-r0)
            lemma_fundamental_div_mod(buf0 as int, pow2((32 - r0) as nat) as int);
            assert(buf0 as nat == pow2((32 - r0) as nat) * a);
            // a < 2^r0
            lemma_pow2_adds((32 - r0) as nat, r0);
            lemma_multiply_divide_lt(buf0 as int, pow2((32 - r0) as nat) as int, pow2(r0) as int);
            let hi = a / pow2(d);
            let lo = a % pow2(d);
            lemma_fundamental_div_mod(a as int, pow2(d) as int);
            vstd::arithmetic::div_mod::lemma_mod_bound(a as int, pow2(d) as int);
            // v == buf0 / 2^(32-n) == a / 2^d
            lemma_pow2_adds((32 - r0) as nat, d);
            lemma_div_denominator(buf0 as int, pow2((32 - r0) as nat) as int, pow2(d) as int);
            assert(buf0 as nat / pow2((32 - r0) as nat) == a) by {
                lemma_div_by_multiple(a as int, pow2((32 - r0) as nat) as int);
                assert(buf0 as nat == a * pow2((32 - r0) as nat)) by (nonlinear_arith)
                    requires
                        buf0 as nat == pow2((32 - r0) as nat) * a,
                ;
            }
            assert(v as nat == a / pow2(d));
            // v < 2^n
            lemma_pow2_adds(d, n as nat);
            assert(a < pow2(d) * pow2(n as nat));
            lemma_multiply_divide_lt(a as int, pow2(d) as int, pow2(n as nat) as int);
            // the shifted-out accumulator holds lo left-aligned at 32 - d
            if n == 32 {
                assert(r0 == 32 && d == 0);
                assert(lo == a % 1);
                assert(a % 1 == 0) by (nonlinear_arith);
                assert(self.buf == 0);
                lemma_small_mod(0, pow2(32));
                assert(self.acc_val() == 0nat / pow2(32));
                assert(0nat / pow2(32) == 0nat) by (nonlinear_arith)
                    requires
                        pow2(32) > 0,
                ;
            } else {
                lemma_u32_shl_mod(buf0, n as u32);
                assert(pow2((32 - r0) as nat) * pow2(n as nat) == pow2((32 - d) as nat)) by {
                    lemma_pow2_adds((32 - r0) as nat, n as nat);
                }
                assert(pow2(d) * pow2((32 - d) as nat) == pow2(32)) by {
                    lemma_pow2_adds(d, (32 - d) as nat);
                }
                assert(buf0 as nat * pow2(n as nat)
                    == hi * pow2(32) + lo * pow2((32 - d) as nat)) by (nonlinear_arith)
                    requires
                        buf0 as nat == pow2((32 - r0) as nat) * a,
                        a == pow2(d) * hi + lo,
                        pow2((32 - r0) as nat) * pow2(n as nat) == pow2((32 - d) as nat),
                        pow2(d) * pow2((32 - d) as nat) == pow2(32),
                ;
                assert(lo * pow2((32 - d) as nat) < pow2(32)) by (nonlinear_arith)
                    requires
                        lo < pow2(d),
                        pow2(d) * pow2((32 - d) as nat) == pow2(32),
                        pow2((32 - d) as nat) > 0,
                ;
                lemma_mod_multiples_vanish(
                    hi as int,
                    (lo * pow2((32 - d) as nat)) as int,
                    pow2(32) as int,
                );
                lemma_small_mod(lo * pow2((32 - d) as nat), pow2(32));
                assert(self.buf as nat == lo * pow2((32 - d) as nat));
                lemma_div_by_multiple(lo as int, pow2((32 - d) as nat) as int);
                lemma_mod_multiples_basic(lo as int, pow2((32 - d) as nat) as int);
            }
        }
        self.remaining = self.remaining - n;
        v
    }

    /// Discards the accumulator and refills it with up to four fresh bytes,
    /// left-aligning a partial fill and marking the source exhausted when it
    /// holds fewer than four bytes.
    fn refill(&mut self)
        requires
            old(self).wf(),
            !old(self).eof,
        ensures
            final(self).wf(),
            final(self).bytes@ == old(self).bytes@,
            old(self).pos <= final(self).pos <= final(self).bytes@.len(),
            final(self).pos - old(self).pos == (if old(self).bytes@.len() - old(self).pos >= 4 {
                4int
            } else {
                old(self).bytes@.len() - old(self).pos
            }),
            final(self).remaining == 8 * (final(self).pos - old(self).pos),
            final(self).eof == (old(self).bytes@.len() - old(self).pos < 4),
            bytes_val(old(self).bytes@.skip(old(self).pos as int)) == final(self).acc_val()
                * pow2(final(self).tail_bits() as nat) + bytes_val(
                final(self).bytes@.skip(final(self).pos as int),
            ),
    {
        proof {
            lemma2_to64();
            lemma2_to64_rest();
        }
        let ghost pos0 = self.pos as int;
        let ghost src = self.bytes@;
        let avail: usize = self.bytes.len() - self.pos;
        let k: usize = if avail >= 4 {
            4
        } else {
            avail
        };
        let target: usize = self.pos + k;
        self.buf = 0;
        self.remaining = 0;
        while self.pos < target
            invariant
                self.bytes@ == src,
                pos0 <= self.pos as int <= target,
                target <= src.len(),
                target == pos0 + k,
                k <= 4,
                self.remaining == 8 * (self.pos as int - pos0),
                self.buf < pow2(self.remaining as nat),
                self.eof == old(self).eof,
                bytes_val(src.skip(pos0)) == self.buf * pow2(
                    (8 * (src.len() - self.pos as int)) as nat,
                ) + bytes_val(src.skip(self.pos as int)),
            decreases target - self.pos,
        {
            let byte: u8 = self.bytes[self.pos];
            let b0: u32 = self.buf;
            proof {
                lemma2_to64();
                let tail = src.skip(self.pos as int);
                lemma_bytes_val_first(tail);
                assert(tail[0] == src[self.pos as int]);
                assert(tail.skip(1) =~= src.skip(self.pos as int + 1));
                let rem = (src.len() - self.pos as int - 1) as nat;
                lemma_pow2_adds((8 * rem) as nat, 8);
                assert(b0 * (pow2((8 * rem) as nat) * 256) == (b0 * 256) * pow2(
                    (8 * rem) as nat,
                )) by (nonlinear_arith);
                assert(byte as nat * pow2((8 * rem) as nat) + b0 * 256 * pow2((8 * rem) as nat)
                    == (b0 * 256 + byte) * pow2((8 * rem) as nat)) by (nonlinear_arith);
                assert(b0 * 256 + byte < pow2((self.remaining + 8) as nat)) by {
                    lemma_pow2_adds(self.remaining as nat, 8);
                    assert(b0 * 256 + byte < pow2(self.remaining as nat) * 256)
                        by (nonlinear_arith)
                        requires
                            b0 < pow2(self.remaining as nat),
                            byte < 256,
                    ;
                }
            }
            self.buf = b0 * 256 + (byte as u32);
            self.remaining = self.remaining + 8;
            self.pos = self.pos + 1;
        }
        if k < 4 {
            if self.remaining > 0 {
                let sh: u32 = 32 - (self.remaining as u32);
                let b0: u32 = self.buf;
                proof {
                    lemma_pow2_strictly_increases(self.remaining as nat, 32);
                    lemma_pow2_adds(self.remaining as nat, (32 - self.remaining) as nat);
                    assert(b0 * pow2((32 - self.remaining) as nat) < pow2(32))
                        by (nonlinear_arith)
                        requires
                            b0 < pow2(self.remaining as nat),
                            pow2(self.remaining as nat) * pow2((32 - self.remaining) as nat)
                                == pow2(32),
                            pow2((32 - self.remaining) as nat) > 0,
                    ;
                    lemma_u64_shl_is_mul(b0 as u64, sh as u64);
                    assert((b0 << sh) == (b0 as u64) << (sh as u64)) by (bit_vector)
                        requires
                            sh < 32,
                            ((b0 as u64) << (sh as u64)) < 0x1_0000_0000u64,
                    ;
                }
                let shifted: u32 = b0 << sh;
                proof {
                    lemma_div_by_multiple(b0 as int, pow2((32 - self.remaining) as nat) as int);
                    lemma_mod_multiples_basic(b0 as int, pow2((32 - self.remaining) as nat) as int);
                }
                self.buf = shifted;
            } else {
                proof {
                    lemma_small_mod(0, pow2(32));
                }
            }
            self.eof = true;
        } else {
            proof {
                lemma_small_mod(self.buf as nat, pow2(32));
                assert(self.remaining == 32);
                assert(self.buf as nat / pow2(0) == self.buf as nat);
                assert(self.buf as nat % pow2(0) == 0) by {
                    lemma_mod_multiples_basic(self.buf as int, 1int);
                }
            }
        }
        proof {
            if self.remaining < 32 && self.remaining > 0 {
                lemma_div_by_multiple(
                    (self.buf as nat / pow2((32 - self.remaining) as nat)) as int,
                    pow2((32 - self.remaining) as nat) as int,
                );
            }
        }
    }

    /// Core read: the next n bits as an unsigned integer, most significant
    /// first, or `EndOfStream` with the cursor unchanged when fewer than n
    /// bits remain.
    #[verifier::rlimit(60)]
    fn get_bits(&mut self, n: u8) -> (r: Result<u32, BitstreamError>)
        requires
            old(self).wf(),
            n <= 32,
        ensures
            final(self).wf(),
            final(self).source() == old(self).source(),
            r is Ok <==> n as int <= old(self).unread_len(),
            r is Ok ==> reads(*old(self), *final(self), n as int, r->Ok_0 as nat),
            r is Err ==> r->Err_0 == BitstreamError::EndOfStream && unchanged_model(
                *old(self),
                *final(self),
            ),
    {
        proof {
            lemma2_to64();
            lemma2_to64_rest();
            old(self).lemma_wf_bounds();
        }
        if n == 0 {
            proof {
                let l = self.unread_len() as nat;
                lemma_basic_div(self.unread_val() as int, pow2(l) as int);
                lemma_small_mod(self.unread_val(), pow2(l));
            }
            return Ok(0);
        }
        if n <= self.remaining {
            let ghost a = self.acc_val();
            let ghost b = bytes_val(self.bytes@.skip(self.pos as int));
            let ghost t = self.tail_bits() as nat;
            let ghost d = (self.remaining - n) as nat;
            let v = self.take_acc(n);
            proof {
                lemma_bytes_val_bound(self.bytes@.skip(self.pos as int));
                lemma_stream_split(a, b, t, d);
            }
            Ok(v)
        } else if self.eof {
            proof {
                assert(self.bytes@.skip(self.pos as int).len() == 0);
            }
            Err(BitstreamError::EndOfStream)
        } else {
            let avail: usize = self.bytes.len() - self.pos;
            let need: u8 = n - self.remaining;
            if avail < 4 && (need as usize) > 8 * avail {
                proof {
                    assert(self.bytes@.skip(self.pos as int).len() == avail);
                }
                Err(BitstreamError::EndOfStream)
            } else {
                let ghost a = self.acc_val();
                let ghost r0 = self.remaining as nat;
                let ghost t = self.tail_bits() as nat;
                let ghost b = bytes_val(self.bytes@.skip(self.pos as int));
                let have: u8 = self.remaining;
                let hi: u32;
                if have > 0 {
                    let v0 = self.take_acc(have);
                    proof {
                        assert(a % 1 == 0) by (nonlinear_arith);
                        assert(a % pow2(0) == 0);
                        assert(v0 as nat == a / pow2(0));
                        assert(a / pow2(0) == a) by (nonlinear_arith)
                            requires
                                pow2(0) == 1,
                        ;
                        lemma_pow2_strictly_increases(need as nat, 32);
                        assert(v0 as nat * pow2(need as nat) < pow2(32)) by {
                            lemma_pow2_adds(r0, need as nat);
                            assert(v0 * pow2(need as nat) < pow2(r0) * pow2(need as nat))
                                by (nonlinear_arith)
                                requires
                                    v0 < pow2(r0),
                                    pow2(need as nat) > 0,
                            ;
                        }
                        lemma_u64_shl_is_mul(v0 as u64, need as u64);
                        assert((v0 << (need as u32)) == (v0 as u64) << (need as u64))
                            by (bit_vector)
                            requires
                                need < 32u8,
                                ((v0 as u64) << (need as u64)) < 0x1_0000_0000u64,
                        ;
                    }
                    hi = v0 << (need as u32);
                    proof {
                        assert(hi as nat == a * pow2(need as nat));
                    }
                } else {
                    proof {
                        assert(self.buf as nat % pow2(32) == self.buf as nat) by {
                            lemma_small_mod(self.buf as nat, pow2(32));
                        }
                        assert(0nat / pow2(32) == 0) by (nonlinear_arith)
                            requires
                                pow2(32) > 0,
                        ;
                        assert(a == 0nat);
                    }
                    hi = 0;
                    proof {
                        assert(a * pow2(need as nat) == 0) by (nonlinear_arith)
                            requires
                                a == 0nat,
                        ;
                        assert(hi as nat == a * pow2(need as nat));
                    }
                }
                self.refill();
                proof {
                    if avail >= 4 {
                        assert(self.remaining == 32);
                    } else {
                        assert(self.remaining == 8 * avail >= need);
                    }
                }
                let ghost a2 = self.acc_val();
                let ghost rem2 = self.remaining as nat;
                let ghost t2 = self.tail_bits() as nat;
                let ghost b2 = bytes_val(self.bytes@.skip(self.pos as int));
                let ghost e = (rem2 - need) as nat;
                let lo = self.take_acc(need);
                proof {
                    lemma_bytes_val_bound(self.bytes@.skip(self.pos as int));
                    // the old tail decomposes as the refilled bits over the new tail
                    assert(b == a2 * pow2(t2) + b2);
                    assert(t == rem2 + t2);
                    // combined view: bits = (a·2^rem2 + a2) over the new tail
                    let c = a * pow2(rem2) + a2;
                    lemma_pow2_adds(rem2, t2);
                    assert(a * pow2(t) == (a * pow2(rem2)) * pow2(t2)) by (nonlinear_arith)
                        requires
                            pow2(t) == pow2(rem2) * pow2(t2),
                    ;
                    let vv = old(self).unread_val();
                    assert(vv == c * pow2(t2) + b2) by (nonlinear_arith)
                        requires
                            vv == a * pow2(t) + b,
                            b == a2 * pow2(t2) + b2,
                            a * pow2(t) == (a * pow2(rem2)) * pow2(t2),
                            c == a * pow2(rem2) + a2,
                    ;
                    // split the combined view at n bits: d + t2 where d = e
                    lemma_stream_split(c, b2, t2, e);
                    assert(old(self).unread_len() - n == e + t2);
                    // c / 2^e == a·2^need + a2/2^e and c % 2^e == a2 % 2^e
                    lemma_pow2_adds(need as nat, e);
                    assert(a * pow2(rem2) == (a * pow2(need as nat)) * pow2(e))
                        by (nonlinear_arith)
                        requires
                            pow2(rem2) == pow2(need as nat) * pow2(e),
                    ;
                    lemma_hoist_over_denominator(
                        a2 as int,
                        (a * pow2(need as nat)) as int,
                        pow2(e),
                    );
                    assert(c / pow2(e) == a * pow2(need as nat) + a2 / pow2(e));
                    lemma_mod_multiples_vanish(
                        (a * pow2(need as nat)) as int,
                        a2 as int,
                        pow2(e) as int,
                    );
                    assert(c == pow2(e) * (a * pow2(need as nat)) + a2) by (nonlinear_arith)
                        requires
                            c == a * pow2(rem2) + a2,
                            a * pow2(rem2) == (a * pow2(need as nat)) * pow2(e),
                    ;
                    assert(c % pow2(e) == a2 % pow2(e));
                    // no overflow in hi + lo
                    assert(a * pow2(need as nat) + lo < pow2((r0 + need) as nat)) by {
                        lemma_pow2_adds(r0, need as nat);
                        assert(a * pow2(need as nat) + lo < pow2(r0) * pow2(need as nat))
                            by (nonlinear_arith)
                            requires
                                a < pow2(r0),
                                lo < pow2(need as nat),
                        ;
                    }
                    if (r0 + need) < 32 {
                        lemma_pow2_strictly_increases((r0 + need) as nat, 32);
                    }
                }
                Ok(hi + lo)
            }
        }
    }

    /// `f(n)`: the next n bits as an unsigned integer, most significant bit
    /// first; fails with `EndOfStream`, leaving the cursor unchanged, when
    /// fewer than n bits remain.
    pub fn f(&mut self, n: u8) -> (r: Result<u32, BitstreamError>)
        requires
            old(self).wf(),
            n <= 32,
        ensures
            final(self).wf(),
            final(self).source() == old(self).source(),
            r is Ok <==> n as int <= old(self).unread_len(),
            r is Ok ==> reads(*old(self), *final(self), n as int, r->Ok_0 as nat),
            r is Err ==> r->Err_0 == BitstreamError::EndOfStream && unchanged_model(
                *old(self),
                *final(self),
            ),
    {
        self.get_bits(n)
    }

    /// `f(1)` interpreted as a boolean.
    pub fn f1(&mut self) -> (r: Result<bool, BitstreamError>)
        requires
            old(self).wf(),
        ensures
            final(self).wf(),
            final(self).source() == old(self).source(),
            r is Ok <==> 1 <= old(self).unread_len(),
            r is Ok ==> reads(
                *old(self),
                *final(self),
                1,
                if r->Ok_0 {
                    1nat
                } else {
                    0nat
                },
            ),
            r is Err ==> r->Err_0 == BitstreamError::EndOfStream && unchanged_model(
                *old(self),
                *final(self),
            ),
    {
        match self.get_bits(1) {
            Ok(v) => {
                proof {
                    lemma2_to64();
                    assert(v < 2);
                }
                Ok(v == 1)
            },
            Err(e) => Err(e),
        }
    }

    /// `uvlc()`: a run of zero bits terminated by a one bit (run length k),
    /// then k suffix bits; the value is suffix + 2^k - 1. A run of 32 or
    /// more yields the saturated maximum without reading a suffix.
    pub fn uvlc(&mut self) -> (r: Result<u32, BitstreamError>)
        requires
            old(self).wf(),
        ensures
            final(self).wf(),
            final(self).source() == old(self).source(),
            r is Ok <==> uvlc_spec(old(self).unread_len(), old(self).unread_val()) is Some,
            r is Ok ==> uvlc_spec(old(self).unread_len(), old(self).unread_val()) == Some(
                (r->Ok_0 as nat, final(self).unread_len(), final(self).unread_val()),
            ),
            r is Err ==> r->Err_0 == BitstreamError::EndOfStream && unchanged_model(
                *old(self),
                *final(self),
            ),
    {
        proof {
            lemma2_to64();
            old(self).lemma_wf_bounds();
        }
        let saved: BitstreamReader<'a> = *self;
        let ghost l0 = self.unread_len();
        let ghost v0 = self.unread_val();
        let mut k: u8 = 0;
        let ghost mut j: int = 0int;
        proof {
            lemma_small_mod(v0, pow2(l0 as nat));
        }
        loop
            invariant_except_break
                self.wf(),
                self.source() == old(self).source(),
                saved == *old(self),
                old(self).wf(),
                l0 == old(self).unread_len(),
                v0 == old(self).unread_val(),
                0 <= j,
                k as int == (if j < 33 {
                    j
                } else {
                    33
                }),
                self.unread_len() == l0 - j,
                self.unread_val() == v0 % pow2((l0 - j) as nat),
                ({
                    match uvlc_zeros(self.unread_len(), self.unread_val()) {
                        Some(m) => uvlc_zeros(l0, v0) == Some(m + j),
                        None => uvlc_zeros(l0, v0) is None,
                    }
                }),
            ensures
                self.wf(),
                self.source() == old(self).source(),
                saved == *old(self),
                0 <= j,
                k as int == (if j < 33 {
                    j
                } else {
                    33
                }),
                uvlc_zeros(l0, v0) == Some(j),
                self.unread_len() == l0 - j - 1,
                self.unread_val() == v0 % pow2((l0 - j - 1) as nat),
            decreases l0 - j,
        {
            let ghost li = self.unread_len();
            let ghost vi = self.unread_val();
            match self.f1() {
                Err(e) => {
                    proof {
                        assert(li <= 0);
                        assert(uvlc_zeros(li, vi) is None);
                    }
                    *self = saved;
                    return Err(e);
                },
                Ok(bit) => {
                    proof {
                        lemma_mod_pow2_collapse(v0, (l0 - j) as nat, (l0 - j - 1) as nat);
                    }
                    if bit {
                        proof {
                            assert(vi / pow2((li - 1) as nat) == 1);
                            assert(uvlc_zeros(li, vi) == Some(0int));
                        }
                        break;
                    }
                    proof {
                        assert(vi / pow2((li - 1) as nat) == 0);
                        assert(uvlc_zeros(li, vi) == (match uvlc_zeros(
                            li - 1,
                            vi % pow2((li - 1) as nat),
                        ) {
                            Some(kk) => Some(kk + 1),
                            None => None::<int>,
                        }));
                    }
                    if k < 33 {
                        k = k + 1;
                    }
                    proof {
                        j = j + 1;
                    }
                },
            }
        }
        if k >= 32 {
            proof {
                lemma_uvlc_saturates(l0, v0, j);
            }
            Ok(0xffff_ffffu32)
        } else {
            let ghost l1 = l0 - j - 1;
            let ghost v1 = v0 % pow2(l1 as nat);
            match self.get_bits(k) {
                Err(e) => {
                    proof {
                        assert(l1 < k as int);
                    }
                    *self = saved;
                    Err(e)
                },
                Ok(suffix) => {
                    proof {
                        lemma2_to64();
                        lemma2_to64_rest();
                        lemma_pow2_strictly_increases(k as nat, 32);
                        lemma_u32_shl_is_mul(1u32, k as u32);
                        lemma_pow2_adds(k as nat, 1);
                        if (k as nat) + 1 < 32 {
                            lemma_pow2_strictly_increases((k as nat) + 1, 32);
                        }
                        assert(suffix < pow2(k as nat));
                    }
                    let base: u32 = (1u32 << (k as u32)) - 1;
                    proof {
                        assert(suffix + base < 0x1_0000_0000int);
                    }
                    Ok(suffix + base)
                },
            }
        }
    }

    /// `le(n)`: n little-endian-ordered whole bytes assembled into an
    /// unsigned integer; the first byte read is the least significant.
    #[verifier::rlimit(60)]
    pub fn le(&mut self, n: u8) -> (r: Result<u32, BitstreamError>)
        requires
            old(self).wf(),
            n <= 4,
        ensures
            final(self).wf(),
            final(self).source() == old(self).source(),
            r is Ok <==> le_spec(old(self).unread_len(), old(self).unread_val(), n as int)
                is Some,
            r is Ok ==> le_spec(old(self).unread_len(), old(self).unread_val(), n as int) == Some(
                (r->Ok_0 as nat, final(self).unread_len(), final(self).unread_val()),
            ),
            r is Err ==> r->Err_0 == BitstreamError::EndOfStream && unchanged_model(
                *old(self),
                *final(self),
            ),
    {
        proof {
            lemma2_to64();
            lemma2_to64_rest();
        }
        let saved: BitstreamReader<'a> = *self;
        let ghost l0 = self.unread_len();
        let ghost v0 = self.unread_val();
        let mut value: u32 = 0;
        let mut i: u8 = 0;
        proof {
            if le_spec(l0, v0, n as int) is Some {
                let (rest, l2, v2) = le_spec(l0, v0, n as int)->Some_0;
                assert(0 + pow2(0) * rest == rest);
                assert(le_spec(l0, v0, n as int) == Some(((0 + pow2(0) * rest) as nat, l2, v2)));
            }
        }
        while i < n
            invariant
                self.wf(),
                self.source() == old(self).source(),
                saved == *old(self),
                old(self).wf(),
                l0 == old(self).unread_len(),
                v0 == old(self).unread_val(),
                i <= n,
                n <= 4,
                value < pow2((8 * i) as nat),
                ({
                    match le_spec(self.unread_len(), self.unread_val(), n - i) {
                        Some((rest, l2, v2)) => le_spec(l0, v0, n as int) == Some(
                            ((value + pow2((8 * i) as nat) * rest) as nat, l2, v2),
                        ),
                        None => le_spec(l0, v0, n as int) is None,
                    }
                }),
            decreases n - i,
        {
            let ghost li = self.unread_len();
            let ghost vi = self.unread_val();
            match self.get_bits(8) {
                Err(e) => {
                    proof {
                        assert(li < 8);
                        assert(le_spec(li, vi, n - i) is None);
                    }
                    *self = saved;
                    return Err(e);
                },
                Ok(byte) => {
                    proof {
                        lemma2_to64();
                        lemma_pow2_adds((8 * i) as nat, 8);
                        if 8 * (i as nat) + 8 < 32 {
                            lemma_pow2_strictly_increases(8 * (i as nat) + 8, 32);
                        }
                        assert(byte < 256);
                        assert(byte * pow2((8 * i) as nat) < 256 * pow2((8 * i) as nat))
                            by (nonlinear_arith)
                            requires
                                byte < 256,
                                pow2((8 * i) as nat) > 0,
                        ;
                        lemma_u32_shl_is_mul(byte, (8 * i) as u32);
                    }
                    let contribution: u32 = byte << ((8 * (i as u32)) as u32);
                    proof {
                        let ghost rest0 = byte + 256 * (le_spec(
                            self.unread_len(),
                            self.unread_val(),
                            n - i - 1,
                        )->Some_0.0);
                        if le_spec(self.unread_len(), self.unread_val(), n - i - 1) is Some {
                            let (rest, l2, v2) = le_spec(
                                self.unread_len(),
                                self.unread_val(),
                                n - i - 1,
                            )->Some_0;
                            assert(le_spec(li, vi, n - i) == Some(
                                ((byte + 256 * rest) as nat, l2, v2),
                            ));
                            assert(value + pow2((8 * i) as nat) * ((byte + 256 * rest) as nat)
                                == (value + byte * pow2((8 * i) as nat)) + pow2(
                                (8 * (i + 1)) as nat,
                            ) * rest) by (nonlinear_arith)
                                requires
                                    pow2((8 * (i + 1)) as nat) == pow2((8 * i) as nat) * 256,
                            ;
                        } else {
                            assert(le_spec(li, vi, n - i) is None);
                        }
                        assert(value + byte * pow2((8 * i) as nat) < pow2((8 * (i + 1)) as nat))
                            by (nonlinear_arith)
                            requires
                                value < pow2((8 * i) as nat),
                                byte < 256,
                                pow2((8 * (i + 1)) as nat) == pow2((8 * i) as nat) * 256,
                        ;
                    }
                    value = value + contribution;
                    i = i + 1;
                },
            }
        }
        proof {
            assert(le_spec(self.unread_len(), self.unread_val(), 0) == Some(
                (0nat, self.unread_len(), self.unread_val()),
            ));
            assert(value + pow2((8 * i) as nat) * 0 == value);
            assert(le_spec(l0, v0, n as int) == Some(
                (value as nat, self.unread_len(), self.unread_val()),
            ));
        }
        Ok(value)
    }

    /// `leb128()`: up to eight bytes, each contributing its low seven bits
    /// at increasing offsets, ending at the first byte whose top bit is
    /// clear.
    #[verifier::rlimit(100)]
    pub fn leb128(&mut self) -> (r: Result<u64, BitstreamError>)
        requires
            old(self).wf(),
        ensures
            final(self).wf(),
            final(self).source() == old(self).source(),
            r is Ok <==> leb128_spec(old(self).unread_len(), old(self).unread_val(), 0) is Some,
            r is Ok ==> leb128_spec(old(self).unread_len(), old(self).unread_val(), 0) == Some(
                (r->Ok_0 as nat, final(self).unread_len(), final(self).unread_val()),
            ),
            r is Ok ==> (old(self).unread_len() - final(self).unread_len()) % 8 == 0
                && final(self).unread_len() <= old(self).unread_len(),
            r is Err ==> r->Err_0 == BitstreamError::EndOfStream && unchanged_model(
                *old(self),
                *final(self),
            ),
    {
        proof {
            lemma2_to64();
            lemma2_to64_rest();
        }
        let saved: BitstreamReader<'a> = *self;
        let ghost l0 = self.unread_len();
        let ghost v0 = self.unread_val();
        let mut value: u64 = 0;
        let mut i: u8 = 0;
        let mut done: bool = false;
        while !done && i < 8
            invariant
                self.wf(),
                self.source() == old(self).source(),
                saved == *old(self),
                old(self).wf(),
                l0 == old(self).unread_len(),
                v0 == old(self).unread_val(),
                i <= 8,
                (l0 - self.unread_len()) % 8 == 0,
                self.unread_len() <= l0,
                done ==> leb128_spec(l0, v0, 0) == Some(
                    (value as nat, self.unread_len(), self.unread_val()),
                ),
                !done ==> value < pow2((7 * i) as nat),
                !done ==> ({
                    match leb128_spec(self.unread_len(), self.unread_val(), i as int) {
                        Some((rest, l2, v2)) => leb128_spec(l0, v0, 0) == Some(
                            ((value + rest) as nat, l2, v2),
                        ),
                        None => leb128_spec(l0, v0, 0) is None,
                    }
                }),
            decreases (if done {
                0int
            } else {
                1int
            }), 8 - i,
        {
            let ghost li = self.unread_len();
            let ghost vi = self.unread_val();
            match self.get_bits(8) {
                Err(e) => {
                    proof {
                        assert(li < 8);
                        assert(leb128_spec(li, vi, i as int) is None);
                    }
                    *self = saved;
                    return Err(e);
                },
                Ok(byte) => {
                    proof {
                        lemma2_to64();
                        lemma_pow2_adds((7 * i) as nat, 7);
                        if 7 * (i as nat) + 7 < 64 {
                            lemma_pow2_strictly_increases(7 * (i as nat) + 7, 64);
                        }
                        assert(pow2(64) == 0x1_0000_0000_0000_0000nat) by {
                            lemma2_to64_rest();
                        }
                        lemma_u64_shl_is_mul(1u64, (7 * i) as u64);
                    }
                    let low7: u32 = byte % 128;
                    let m: u64 = 1u64 << ((7 * (i as u32)) as u32);
                    proof {
                        assert((low7 as nat) * (m as nat) < pow2((7 * i) as nat) * 128)
                            by (nonlinear_arith)
                            requires
                                low7 < 128,
                                m == pow2((7 * i) as nat),
                                pow2((7 * i) as nat) > 0,
                        ;
                        assert(pow2((7 * i) as nat) * 128 == pow2((7 * (i + 1)) as nat));
                    }
                    let contribution: u64 = (low7 as u64) * m;
                    proof {
                        assert(contribution <= 127 * pow2((7 * i) as nat)) by (nonlinear_arith)
                            requires
                                contribution == (low7 as nat) * pow2((7 * i) as nat),
                                low7 <= 127,
                                pow2((7 * i) as nat) > 0,
                        ;
                        assert(value + contribution < pow2((7 * (i + 1)) as nat)) by (
                            nonlinear_arith)
                            requires
                                value < pow2((7 * i) as nat),
                                contribution <= 127 * pow2((7 * i) as nat),
                                pow2((7 * (i + 1)) as nat) == pow2((7 * i) as nat) * 128,
                        ;
                    }
                    if byte < 0x80 {
                        proof {
                            assert(leb128_spec(li, vi, i as int) == Some(
                                (
                                    (byte * pow2((7 * i) as nat)) as nat,
                                    self.unread_len(),
                                    self.unread_val(),
                                ),
                            ));
                            assert(low7 == byte);
                        }
                        value = value + contribution;
                        done = true;
                    } else {
                        proof {
                            assert(low7 == byte - 128);
                            if leb128_spec(self.unread_len(), self.unread_val(), i as int + 1)
                                is Some {
                                let (rest, l2, v2) = leb128_spec(
                                    self.unread_len(),
                                    self.unread_val(),
                                    i as int + 1,
                                )->Some_0;
                                assert(leb128_spec(li, vi, i as int) == Some(
                                    (((byte - 128) * pow2((7 * i) as nat) + rest) as nat, l2, v2),
                                ));
                            } else {
                                assert(leb128_spec(li, vi, i as int) is None);
                            }
                        }
                        value = value + contribution;
                        i = i + 1;
                    }
                },
            }
        }
        proof {
            if !done {
                assert(i == 8);
                assert(leb128_spec(self.unread_len(), self.unread_val(), 8) == Some(
                    (0nat, self.unread_len(), self.unread_val()),
                ));
            }
        }
        Ok(value)
    }

    /// `su(n)`: n bits reinterpreted as a two's-complement value centered
    /// at zero; well-defined for every width up to and including 32.
    pub fn su(&mut self, n: u8) -> (r: Result<i32, BitstreamError>)
        requires
            old(self).wf(),
            1 <= n <= 32,
        ensures
            final(self).wf(),
            final(self).source() == old(self).source(),
            r is Ok <==> n as int <= old(self).unread_len(),
            r is Ok ==> reads(
                *old(self),
                *final(self),
                n as int,
                old(self).unread_val() / pow2((old(self).unread_len() - n) as nat),
            ),
            r is Ok ==> r->Ok_0 as int == su_val(
                old(self).unread_val() / pow2((old(self).unread_len() - n) as nat),
                n as nat,
            ),
            r is Err ==> r->Err_0 == BitstreamError::EndOfStream && unchanged_model(
                *old(self),
                *final(self),
            ),
    {
        let v = match self.get_bits(n) {
            Ok(v) => v,
            Err(e) => {
                return Err(e);
            },
        };
        proof {
            lemma2_to64();
            lemma2_to64_rest();
            lemma_pow2_adds((n - 1) as nat, 1);
            lemma_pow2_strictly_increases((n - 1) as nat, 32);
            if (n as nat) < 32 {
                lemma_pow2_strictly_increases(n as nat, 32);
            }
            lemma_u32_shl_is_mul(1u32, (n - 1) as u32);
            lemma_u64_shl_is_mul(1u64, n as u64);
        }
        let half: u32 = 1u32 << ((n - 1) as u32);
        if v >= half {
            let p: u64 = 1u64 << (n as u32);
            let wide: i64 = (v as i64) - (p as i64);
            Ok(wide as i32)
        } else {
            Ok(v as i32)
        }
    }

    /// `ns(n)` for an alphabet of exactly n symbols: a minimum-redundancy
    /// code of floor(log2 n) or floor(log2 n) + 1 bits; the result is
    /// always below n.
    pub fn ns(&mut self, n: u8) -> (r: Result<u32, BitstreamError>)
        requires
            old(self).wf(),
            n >= 1,
        ensures
            final(self).wf(),
            final(self).source() == old(self).source(),
            r is Ok <==> ns_spec(old(self).unread_len(), old(self).unread_val(), n as nat)
                is Some,
            r is Ok ==> ns_spec(old(self).unread_len(), old(self).unread_val(), n as nat) == Some(
                (r->Ok_0 as nat, final(self).unread_len(), final(self).unread_val()),
            ),
            r is Ok ==> r->Ok_0 < n,
            r is Err ==> r->Err_0 == BitstreamError::EndOfStream && unchanged_model(
                *old(self),
                *final(self),
            ),
    {
        proof {
            lemma2_to64();
        }
        let saved: BitstreamReader<'a> = *self;
        let mut w: u8 = 1;
        while (n as u32) >= (1u32 << (w as u32))
            invariant
                1 <= w <= 8,
                n as nat >= pow2((w - 1) as nat),
                saved == *old(self),
                self == old(self),
            decreases 8 - w,
        {
            proof {
                lemma2_to64();
                lemma_u32_shl_is_mul(1u32, w as u32);
                if (w as nat) < 8 {
                    lemma_pow2_strictly_increases(w as nat, 8);
                }
                assert(w < 8);
            }
            w = w + 1;
        }
        proof {
            lemma2_to64();
            lemma_u32_shl_is_mul(1u32, w as u32);
            lemma_bit_len_is(n as nat, w as nat);
            lemma_pow2_adds((w - 1) as nat, 1);
        }
        let m: u32 = (1u32 << (w as u32)) - (n as u32);
        let v1 = match self.get_bits(w - 1) {
            Ok(x) => x,
            Err(e) => {
                return Err(e);
            },
        };
        if v1 < m {
            Ok(v1)
        } else {
            match self.get_bits(1) {
                Err(e) => {
                    *self = saved;
                    Err(e)
                },
                Ok(extra) => {
                    proof {
                        assert(extra < 2);
                    }
                    Ok((v1 * 2 - m) + extra)
                },
            }
        }
    }

    /// Byte offset of the cursor into its source, defined at byte-aligned
    /// positions: the count of whole bytes already consumed.
    pub fn byte_position(&self) -> (r: usize)
        requires
            self.wf(),
            self.unread_len() % 8 == 0,
        ensures
            8 * r as int == 8 * self.source().len() - self.unread_len(),
            r <= self.source().len(),
    {
        proof {
            lemma_mod_multiples_vanish(
                self.bytes@.len() as int - self.pos as int,
                self.remaining as int,
                8,
            );
            assert(self.remaining as int % 8 == self.remaining as int - 8 * (self.remaining as int
                / 8)) by {
                lemma_fundamental_div_mod(self.remaining as int, 8);
            }
        }
        self.pos - ((self.remaining / 8) as usize)
    }
}

/// One successful read of n bits: v is the value of the top n unread bits
/// and the cursor advances past exactly those bits.
pub open spec fn reads<'a>(
    pre: BitstreamReader<'a>,
    post: BitstreamReader<'a>,
    n: int,
    v: nat,
) -> bool {
    &&& n <= pre.unread_len()
    &&& post.unread_len() == pre.unread_len() - n
    &&& v == pre.unread_val() / pow2((pre.unread_len() - n) as nat)
    &&& v < pow2(n as nat)
    &&& post.unread_val() == pre.unread_val() % pow2((pre.unread_len() - n) as nat)
}

/// The cursor's unread bits are exactly what they were.
pub open spec fn unchanged_model<'a>(pre: BitstreamReader<'a>, post: BitstreamReader<'a>) -> bool {
    &&& post.unread_len() == pre.unread_len()
    &&& post.unread_val() == pre.unread_val()
}

/// `le(n)` on a stream of l bits with value v: n bytes assembled least
/// significant byte first, with the remaining stream; `None` when fewer
/// than n whole bytes remain.
pub open spec fn le_spec(l: int, v: nat, n: int) -> Option<(nat, int, nat)>
    decreases n,
{
    if n <= 0 {
        Some((0, l, v))
    } else if l < 8 {
        None
    } else {
        let b = v / pow2((l - 8) as nat);
        match le_spec(l - 8, v % pow2((l - 8) as nat), n - 1) {
            None => None,
            Some((rest, l2, v2)) => Some(((b + 256 * rest) as nat, l2, v2)),
        }
    }
}

/// `leb128()` from group index i on: each byte contributes its low seven
/// bits at offset 7i; the first byte with a clear top bit ends the value;
/// at most 8 - i further bytes are read.
pub open spec fn leb128_spec(l: int, v: nat, i: int) -> Option<(nat, int, nat)>
    decreases 8 - i,
{
    if i >= 8 {
        Some((0, l, v))
    } else if l < 8 {
        None
    } else {
        let b = v / pow2((l - 8) as nat);
        let v1 = v % pow2((l - 8) as nat);
        if b < 128 {
            Some(((b * pow2((7 * i) as nat)) as nat, l - 8, v1))
        } else {
            match leb128_spec(l - 8, v1, i + 1) {
                None => None,
                Some((rest, l2, v2)) => Some(
                    (((b - 128) * pow2((7 * i) as nat) + rest) as nat, l2, v2),
                ),
            }
        }
    }
}

/// The signed reading of an n-bit pattern: two's complement centered at
/// zero, so a pattern with its top bit set stands for itself minus 2^n.
pub open spec fn su_val(raw: nat, n: nat) -> int {
    if raw >= pow2((n - 1) as nat) {
        raw - pow2(n)
    } else {
        raw as int
    }
}

/// Number of binary digits of n: the unique w with 2^(w-1) <= n < 2^w for
/// n >= 1, and 0 for 0.
pub open spec fn bit_len(n: nat) -> nat
    decreases n,
{
    if n == 0 {
        0
    } else {
        bit_len(n / 2) + 1
    }
}

/// For n >= 1, bit_len brackets n between consecutive powers of two.
pub proof fn lemma_bit_len_bounds(n: nat)
    requires
        n >= 1,
    ensures
        1 <= bit_len(n),
        pow2((bit_len(n) - 1) as nat) <= n < pow2(bit_len(n)),
    decreases n,
{
    lemma2_to64();
    if n == 1 {
        assert(bit_len(1nat) == bit_len(0nat) + 1);
    } else {
        lemma_bit_len_bounds(n / 2);
        let w = bit_len(n / 2);
        lemma_fundamental_div_mod(n as int, 2);
        lemma_pow2_adds((w - 1) as nat, 1);
        lemma_pow2_adds(w, 1);
        assert(n >= 2 * pow2((w - 1) as nat)) by (nonlinear_arith)
            requires
                n / 2 >= pow2((w - 1) as nat),
                n == 2 * (n / 2) + n % 2,
                n % 2 >= 0,
        ;
        assert(n < 2 * pow2(w)) by (nonlinear_arith)
            requires
                n / 2 < pow2(w),
                n == 2 * (n / 2) + n % 2,
                n % 2 < 2,
        ;
    }
}

/// bit_len is pinned by any bracketing pair of consecutive powers of two.
pub proof fn lemma_bit_len_is(n: nat, w: nat)
    requires
        w >= 1,
        pow2((w - 1) as nat) <= n < pow2(w),
    ensures
        bit_len(n) == w,
{
    lemma_bit_len_bounds(n);
    let b = bit_len(n);
    if b < w {
        if b < w - 1 {
            lemma_pow2_strictly_increases(b, (w - 1) as nat);
        }
        assert(false);
    } else if b > w {
        if w < b - 1 {
            lemma_pow2_strictly_increases(w, (b - 1) as nat);
        }
        assert(false);
    }
}

/// `ns(n)` on a stream of l bits with value v, for an alphabet of exactly
/// n symbols: with w the bit length of n and m = 2^w - n, a short (w-1)-bit
/// code below m stands for itself; otherwise one more bit extends it.
pub open spec fn ns_spec(l: int, v: nat, n: nat) -> Option<(nat, int, nat)> {
    let w = bit_len(n);
    let m = (pow2(w) - n) as nat;
    if l < w - 1 {
        None
    } else {
        let v1 = v / pow2((l - (w - 1)) as nat);
        let rest = v % pow2((l - (w - 1)) as nat);
        if v1 < m {
            Some((v1, l - (w - 1), rest))
        } else if l < w {
            None
        } else {
            let extra = rest / pow2((l - w) as nat);
            Some((((2 * v1 - m) + extra) as nat, l - w, rest % pow2((l - w) as nat)))
        }
    }
}

/// Count of zero bits before the first one bit in a stream of l bits with
/// value v; `None` when no one bit occurs within the l bits.
pub open spec fn uvlc_zeros(l: int, v: nat) -> Option<int>
    decreases l,
{
    if l <= 0 {
        None
    } else if v / pow2((l - 1) as nat) == 1 {
        Some(0)
    } else {
        match uvlc_zeros(l - 1, v % pow2((l - 1) as nat)) {
            Some(k) => Some(k + 1),
            None => None,
        }
    }
}

/// `uvlc()` on a stream of l bits with value v: the decoded value with the
/// remaining stream, or `None` when the stream runs out of bits.
pub open spec fn uvlc_spec(l: int, v: nat) -> Option<(nat, int, nat)> {
    match uvlc_zeros(l, v) {
        None => None,
        Some(k) => {
            let l1 = l - k - 1;
            let v1 = v % pow2(l1 as nat);
            if k >= 32 {
                Some((0xffff_ffffnat, l1, v1))
            } else if l1 < k {
                None
            } else {
                Some(
                    (
                        (v1 / pow2((l1 - k) as nat) + pow2(k as nat) - 1) as nat,
                        l1 - k,
                        v1 % pow2((l1 - k) as nat),
                    ),
                )
            }
        },
    }
}

/// A counted run of leading zeros is shorter than the stream.
pub proof fn lemma_uvlc_zeros_bound(l: int, v: nat)
    requires
        uvlc_zeros(l, v) is Some,
    ensures
        0 <= uvlc_zeros(l, v)->Some_0 < l,
    decreases l,
{
    if l > 0 && v / pow2((l - 1) as nat) != 1 {
        lemma_uvlc_zeros_bound(l - 1, v % pow2((l - 1) as nat));
    }
}

/// Reading a+b bits at once yields the same bits as reading a bits and
/// then b bits: over a stream of l bits with value v, the single value is
/// the first read shifted up by b bits plus the second, and the stream
/// left behind is the same either way.
pub proof fn lemma_read_split(l: int, v: nat, a: int, b: int)
    requires
        0 <= a,
        0 <= b,
        a + b <= l,
    ensures
        v / pow2((l - a - b) as nat) == (v / pow2((l - a) as nat)) * pow2(b as nat) + (v % pow2(
            (l - a) as nat,
        )) / pow2((l - a - b) as nat),
        (v % pow2((l - a) as nat)) % pow2((l - a - b) as nat) == v % pow2((l - a - b) as nat),
{
    let p = pow2((l - a - b) as nat);
    let q = pow2(b as nat);
    let pq = pow2((l - a) as nat);
    lemma_pow2_adds(b as nat, (l - a - b) as nat);
    lemma_fundamental_div_mod(v as int, pq as int);
    assert(pq * (v / pq) == ((v / pq) * q) * p) by (nonlinear_arith)
        requires
            pq == q * p,
    ;
    lemma_hoist_over_denominator((v % pq) as int, ((v / pq) * q) as int, p as nat);
    lemma_mod_pow2_collapse(v, (l - a) as nat, (l - a - b) as nat);
}

/// The n-bit pattern that `su(n)` decodes to a given signed value: the
/// inverse of `su_val`.
pub open spec fn su_raw(s: int, n: nat) -> nat {
    if s < 0 {
        (s + pow2(n)) as nat
    } else {
        s as nat
    }
}

/// `su(n)` is a bijection between n-bit patterns and the signed range
/// [-2^(n-1), 2^(n-1)): every pattern decodes into the range, distinct
/// patterns decode to distinct values, and every value of the range is
/// decoded from some pattern.
pub proof fn lemma_su_bijection(n: nat)
    requires
        1 <= n <= 32,
    ensures
        forall|raw: nat|
            raw < pow2(n) ==> -(pow2((n - 1) as nat) as int) <= #[trigger] su_val(raw, n) < pow2(
                (n - 1) as nat,
            ),
        forall|r1: nat, r2: nat|
            #![trigger su_val(r1, n), su_val(r2, n)]
            r1 < pow2(n) && r2 < pow2(n) && su_val(r1, n) == su_val(r2, n) ==> r1 == r2,
        forall|s: int|
            -(pow2((n - 1) as nat) as int) <= s < pow2((n - 1) as nat) ==> #[trigger] su_raw(s, n)
                < pow2(n) && su_val(su_raw(s, n), n) == s,
{
    lemma_pow2_adds((n - 1) as nat, 1);
    lemma2_to64();
    assert forall|s: int|
        -(pow2((n - 1) as nat) as int) <= s < pow2((n - 1) as nat) implies #[trigger] su_raw(s, n)
        < pow2(n) && su_val(su_raw(s, n), n) == s by {
        assert(su_raw(s, n) < pow2(n));
        assert(su_val(su_raw(s, n), n) == s);
    }
}

/// A uvlc code whose run of leading zeros is 32 bits or longer decodes to
/// the saturated maximum unsigned 32-bit value; once the terminating one
/// bit is present the decode cannot fail and no suffix is read.
pub proof fn lemma_uvlc_saturates(l: int, v: nat, k: int)
    requires
        uvlc_zeros(l, v) == Some(k),
        k >= 32,
    ensures
        uvlc_spec(l, v) == Some((0xffff_ffffnat, l - k - 1, v % pow2((l - k - 1) as nat))),
{
    lemma_uvlc_zeros_bound(l, v);
}

} // verus!
