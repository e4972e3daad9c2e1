//! Microsoft LZX decompression as XEX images use it: the whole compressed
//! stream is in memory, the decompressed
//! length is known up front, no reset interval and no reference data. The
//! optional Intel `E8` call transform is applied when the stream's header
//! bit asks for it.
//!
//! Where a crafted stream would drive an index outside the window, a table
//! or a length array, decoding stops with `LzxError::Decrunched`.
//!
//! The contracts here state the argument checks and the output length; the
//! bit reader exactly, as a cursor over the stream (`sbit`, `stream_val`,
//! `bits_avail`); which symbol a Huffman read gives from its table
//! (`huff_lookup`); the bytes a verbatim or aligned block writes into the
//! window, decoded from the stream with the block's tables
//! (`spec_block_run`); how uncompressed blocks copy their bytes; and when a
//! Huffman code is accepted. They do not state how the code-length sections
//! of the stream turn into tables beyond the canonical slots of complete
//! codes, nor how `lzx_decompress` assembles frames from the blocks, so its
//! output bytes are not stated.
use vstd::prelude::*;
use vstd::arithmetic::power2::{lemma2_to64, lemma_pow2_adds, lemma_pow2_pos, lemma_pow2_unfold, pow2};
use vstd::arithmetic::mul::lemma_mul_is_distributive_add;

verus! {

/// Why a stream failed to decode.
#[derive(Debug, Clone, Copy, PartialEq, Eq, Structural)]
pub enum LzxError {
    /// Invalid arguments (window size not a power of two in `2^15..=2^21`).
    Args,
    /// The stream could not be decoded (bad or truncated data).
    Decrunched,
    /// The input ran out while bits were still needed.
    Read,
}

// ---------------------------------------------------------------------------
// Position slots
// ---------------------------------------------------------------------------

/// Number of position slots for a window of `2^window_bits` bytes.
pub open spec fn spec_position_slots(window_bits: u32) -> nat {
    if window_bits == 15 { 30 }
    else if window_bits == 16 { 32 }
    else if window_bits == 17 { 34 }
    else if window_bits == 18 { 36 }
    else if window_bits == 19 { 38 }
    else if window_bits == 20 { 42 }
    else { 50 }
}

fn position_slots(window_bits: u32) -> (n: usize)
    requires
        15 <= window_bits <= 21,
    ensures
        n == spec_position_slots(window_bits),
{
    if window_bits == 15 { 30 }
    else if window_bits == 16 { 32 }
    else if window_bits == 17 { 34 }
    else if window_bits == 18 { 36 }
    else if window_bits == 19 { 38 }
    else if window_bits == 20 { 42 }
    else { 50 }
}

/// Extra offset bits of position slot `slot`.
pub open spec fn spec_extra_bits(slot: int) -> u32 {
    if slot < 4 { 0 } else if slot < 36 { ((slot - 2) / 2) as u32 } else { 17 }
}

fn extra_bits(slot: usize) -> (e: u32)
    ensures
        e == spec_extra_bits(slot as int),
        e <= 17,
{
    if slot < 4 { 0 } else if slot < 36 { ((slot - 2) / 2) as u32 } else { 17 }
}

/// Base match offset of position slot `slot` (each slot's range of
/// `2^extra` offsets starts where the previous one ends).
pub open spec fn spec_position_base(slot: int) -> u32 {
    if slot < 4 {
        slot as u32
    } else if slot < 36 {
        if slot % 2 == 0 {
            1u32 << ((slot / 2) as u32)
        } else {
            3u32 << ((slot / 2 - 1) as u32)
        }
    } else {
        (0x4_0000 + (slot - 36) * 0x2_0000) as u32
    }
}

/// Slots 0..=3 take no extra bits; from slot 4 on each pair of slots takes
/// one bit more than the pair before (slots 4 and 5 one bit), up to 17 bits
/// from slot 36 on.
pub proof fn extra_bits_grow_per_pair(slot: int)
    requires
        0 <= slot,
    ensures
        slot < 4 ==> spec_extra_bits(slot) == 0,
        4 <= slot < 36 ==> spec_extra_bits(slot) == slot / 2 - 1,
        36 <= slot ==> spec_extra_bits(slot) == 17,
{
}

/// The position slots cover the offsets without gap or overlap: slot 0
/// starts at offset 0 and each slot starts where the previous one's range of
/// `2^extra` offsets ends.
pub proof fn position_slots_are_contiguous(slot: int)
    requires
        0 <= slot < 289,
    ensures
        spec_position_base(0) == 0,
        spec_position_base(slot + 1) == spec_position_base(slot) + pow2(spec_extra_bits(slot) as nat),
{
    lemma2_to64();
    if 4 <= slot <= 35 {
        let k = slot / 2;
        vstd::arithmetic::power2::lemma_pow2_strictly_increases((k - 1) as nat, 17);
        vstd::arithmetic::power2::lemma_pow2_strictly_increases(k as nat, 18);
        vstd::arithmetic::power2::lemma_pow2_strictly_increases((k + 1) as nat, 19);
        lemma_pow2_unfold(k as nat);
        lemma_pow2_unfold((k + 1) as nat);
        vstd::bits::lemma_u32_shl_is_mul(1, k as u32);
        vstd::bits::lemma_u32_shl_is_mul(3, (k - 1) as u32);
        if k + 1 <= 17 {
            vstd::bits::lemma_u32_shl_is_mul(1, (k + 1) as u32);
        }
    } else if slot == 3 {
        vstd::bits::lemma_u32_shl_is_mul(1, 2);
    }
}

fn position_base(slot: usize) -> (b: u32)
    requires
        slot < 290,
    ensures
        b == spec_position_base(slot as int),
        slot >= 4 ==> 4 <= b <= 0x240_0000,
{
    if slot < 4 {
        slot as u32
    } else if slot < 36 {
        let k = (slot / 2) as u32;
        if slot % 2 == 0 {
            assert(4 <= (1u32 << k) <= 0x2_0000) by (bit_vector)
                requires
                    2 <= k <= 17,
            ;
            1u32 << k
        } else {
            let k1 = k - 1;
            assert(6 <= (3u32 << k1) <= 0x3_0000) by (bit_vector)
                requires
                    1 <= k1 <= 16,
            ;
            3u32 << k1
        }
    } else {
        (0x4_0000 + (slot - 36) * 0x2_0000) as u32
    }
}

// ---------------------------------------------------------------------------
// Bit reader (MSB first over little-endian 16-bit words)
// ---------------------------------------------------------------------------

/// The input, the read position, and a buffer whose top `bits_left` bits are
/// the next bits of the stream.
pub struct BitReader<'a> {
    pub input: &'a [u8],
    pub i_ptr: usize,
    pub bit_buffer: u32,
    pub bits_left: u32,
    /// Zero bytes were already faked once past the end of the input.
    pub eof_padded: bool,
}

/// The reader's position and buffer are consistent.
pub open spec fn reader_wf(b: BitReader) -> bool {
    &&& b.input@.len() < usize::MAX
    &&& b.bits_left <= 32
    &&& (b.i_ptr <= b.input@.len() || (b.i_ptr == b.input@.len() + 1 && b.eof_padded))
    &&& buffer_clean(b.bit_buffer, b.bits_left)
}

/// Only the top `left` bits of the buffer can be set.
pub open spec fn buffer_clean(buf: u32, left: u32) -> bool {
    left >= 32 || buf & (0xFFFF_FFFFu32 >> left) == 0
}

/// Byte `i` of the input, or zero past its end.
pub open spec fn byte_or_zero(input: Seq<u8>, i: int) -> u32 {
    if 0 <= i < input.len() { input[i] as u32 } else { 0 }
}

/// The little-endian 16-bit word at byte `i` of the input, zero past its end.
pub open spec fn le_word(input: Seq<u8>, i: int) -> u32 {
    byte_or_zero(input, i) | (byte_or_zero(input, i + 1) << 8u32)
}

/// The next `n` bits of the stream (`1 <= n <= 17`), most significant
/// first: the buffered bits, then the next two little-endian words of the
/// input, each read from its top bit down.
pub open spec fn upcoming(b: BitReader, n: u32) -> u32 {
    let big: u64 = ((b.bit_buffer as u64) << 32u64)
        | ((le_word(b.input@, b.i_ptr as int) as u64) << ((48 - b.bits_left) as u64))
        | ((le_word(b.input@, b.i_ptr + 2) as u64) << ((32 - b.bits_left) as u64));
    (big >> ((64 - n) as u64)) as u32
}

/// Bit `k` of the stream the reader delivers from here: the buffered bits
/// from the top down, then each following little-endian 16-bit word of the
/// input (zero past its end) from its top bit down.
pub open spec fn sbit(b: BitReader, k: int) -> bool {
    if k < b.bits_left {
        (b.bit_buffer >> ((31 - k) as u32)) & 1u32 == 1u32
    } else {
        let j = k - b.bits_left;
        (le_word(b.input@, b.i_ptr + 2 * (j / 16)) >> ((15 - j % 16) as u32)) & 1u32 == 1u32
    }
}

/// The `n` stream bits from bit `k` on, as a number (first bit most significant).
pub open spec fn stream_val(b: BitReader, k: int, n: nat) -> nat
    decreases n,
{
    if n == 0 { 0 } else { 2 * stream_val(b, k, (n - 1) as nat) + if sbit(b, k + n - 1) { 1nat } else { 0nat } }
}

/// One more bit of a 64-bit value's top bits.
proof fn lemma_top_bits_step(big: u64, n: u64)
    by (bit_vector)
    requires
        1 <= n <= 16,
    ensures
        big >> ((63 - n) as u64) == 2 * (big >> ((64 - n) as u64)) + ((big >> ((63 - n) as u64)) & 1),
        (big >> 63u64) == ((big >> 63u64) & 1),
        big >> ((63 - n) as u64) <= 0xFFFF_FFFF,
        (big >> ((63 - n) as u64)) & 1 <= 1,
        (big >> 63u64) & 1 <= 1,
        big >> ((64 - n) as u64) <= 0xFFFF_FFFF,
{
}

/// The bits of the reader's 64-bit window: the buffer, then two words.
proof fn lemma_window_bit(buf: u32, left: u32, w0: u32, w1: u32, big: u64, m: u64)
    by (bit_vector)
    requires
        left <= 32,
        buffer_clean(buf, left),
        w0 <= 0xFFFF,
        w1 <= 0xFFFF,
        m < 32,
        big == ((buf as u64) << 32u64) | ((w0 as u64) << ((48 - left) as u64)) | ((w1 as u64) << ((32 - left) as u64)),
    ensures
        m < left ==> (((big >> ((63 - m) as u64)) & 1) == 1) == (((buf >> ((31 - m) as u32)) & 1u32) == 1u32),
        left <= m < left + 16 ==> (((big >> ((63 - m) as u64)) & 1) == 1) == (((w0 >> ((15 - (m - left)) as u32)) & 1u32) == 1u32),
        left + 16 <= m ==> (((big >> ((63 - m) as u64)) & 1) == 1) == (((w1 >> ((15 - (m - left - 16)) as u32)) & 1u32) == 1u32),
{
}

/// Filling a word in below `left` buffered bits keeps those bits, puts the
/// word's bits right after them, and keeps the buffer clean.
proof fn lemma_fill_bits(buf: u32, left: u32, w: u32, k: u32)
    by (bit_vector)
    requires
        left <= 16,
        buffer_clean(buf, left),
        w <= 0xFFFF,
        k < 32,
    ensures
        buffer_clean(buf | (w << ((16 - left) as u32)), (left + 16) as u32),
        k < left ==> ((((buf | (w << ((16 - left) as u32))) >> ((31 - k) as u32)) & 1u32) == 1u32)
            == (((buf >> ((31 - k) as u32)) & 1u32) == 1u32),
        left <= k < left + 16 ==> ((((buf | (w << ((16 - left) as u32))) >> ((31 - k) as u32)) & 1u32) == 1u32)
            == (((w >> ((15 - (k - left)) as u32)) & 1u32) == 1u32),
        (0u32 | (0u32 << 8u32)) == 0u32,
{
}

/// Dropping the top `n` bits moves every other buffered bit up by `n`.
proof fn lemma_shift_bits(buf: u32, left: u32, n: u32, k: u32)
    by (bit_vector)
    requires
        buffer_clean(buf, left),
        n <= left,
        left <= 32,
        n < 32,
        k + n < 32,
    ensures
        buffer_clean(buf << n, (left - n) as u32),
        ((((buf << n) >> ((31 - k) as u32)) & 1u32) == 1u32) == (((buf >> ((31 - (k + n)) as u32)) & 1u32) == 1u32),
{
}

proof fn lemma_word_bit(b0: u32, b1: u32, k: u32)
    by (bit_vector)
    requires
        b0 <= 0xFF,
        b1 <= 0xFF,
        k < 16,
    ensures
        k < 8 ==> ((((b0 | (b1 << 8u32)) >> ((15 - k) as u32)) & 1u32) == 1u32) == (((b1 >> ((7 - k) as u32)) & 1u32) == 1u32),
        8 <= k ==> ((((b0 | (b1 << 8u32)) >> ((15 - k) as u32)) & 1u32) == 1u32) == (((b0 >> ((15 - k) as u32)) & 1u32) == 1u32),
{
}

/// Stream bit order: with nothing buffered, the stream goes on with the input
/// at the read position taken two bytes at a time, the second byte's bits
/// first (from its top bit down), then the first byte's.
pub proof fn stream_bit_order(b: BitReader, k: int)
    requires
        b.bits_left == 0,
        0 <= k,
    ensures
        ({
            let w = 2 * (k / 16);
            let j = k % 16;
            let lo = byte_or_zero(b.input@, b.i_ptr + w);
            let hi = byte_or_zero(b.input@, b.i_ptr + w + 1);
            &&& j < 8 ==> sbit(b, k) == (((hi >> ((7 - j) as u32)) & 1u32) == 1u32)
            &&& 8 <= j ==> sbit(b, k) == (((lo >> ((15 - j) as u32)) & 1u32) == 1u32)
        }),
{
    let w = 2 * (k / 16);
    let j = k % 16;
    lemma_word_bit(byte_or_zero(b.input@, b.i_ptr + w), byte_or_zero(b.input@, b.i_ptr + w + 1), j as u32);
}

/// The next `n` bits read as one number are the stream's first `n` bits.
proof fn lemma_upcoming_stream(b: BitReader, n: u32)
    requires
        reader_wf(b),
        1 <= n <= 17,
    ensures
        upcoming(b, n) as nat == stream_val(b, 0, n as nat),
    decreases n,
{
    let buf = b.bit_buffer;
    let left = b.bits_left;
    let w0 = le_word(b.input@, b.i_ptr as int);
    let w1 = le_word(b.input@, b.i_ptr + 2);
    lemma_le_word_bounded(b.input@, b.i_ptr as int);
    lemma_le_word_bounded(b.input@, b.i_ptr + 2);
    let big: u64 = ((buf as u64) << 32u64) | ((w0 as u64) << ((48 - left) as u64)) | ((w1 as u64) << ((32 - left) as u64));
    let m = (n - 1) as u64;
    lemma_window_bit(buf, left, w0, w1, big, m);
    let mi = m as int;
    assert(sbit(b, mi) == (((big >> ((63 - m) as u64)) & 1) == 1)) by {
        if mi >= left {
            let j = mi - left;
            if j < 16 {
                assert(j / 16 == 0 && j % 16 == j);
            } else {
                assert(j / 16 == 1 && j % 16 == j - 16);
            }
        }
    }
    assert(upcoming(b, n) == (big >> ((64 - n) as u64)) as u32);
    if n == 1 {
        lemma_top_bits_step(big, 1);
        assert(stream_val(b, 0, 0) == 0);
        assert(stream_val(b, 0, 1) == if sbit(b, 0) { 1nat } else { 0nat });
    } else {
        lemma_upcoming_stream(b, (n - 1) as u32);
        assert(upcoming(b, (n - 1) as u32) == (big >> ((64 - (n - 1)) as u64)) as u32);
        lemma_top_bits_step(big, m);
        assert(stream_val(b, 0, n as nat) == 2 * stream_val(b, 0, (n - 1) as nat) + if sbit(b, mi) { 1nat } else { 0nat });
    }
}

/// How many more 16-bit reads the input can feed: its whole words, then
/// one zero-padded read if none was made yet.
#[verifier::opaque]
pub open spec fn words_avail(b: BitReader) -> int {
    (if b.i_ptr <= b.input@.len() { (b.input@.len() - b.i_ptr) / 2 } else { 0int }) + (if b.eof_padded { 0int } else { 1int })
}

/// How many more bits the reader can still deliver.
pub open spec fn bits_avail(b: BitReader) -> int {
    b.bits_left + 16 * words_avail(b)
}

proof fn lemma_words_avail_nonneg(b: BitReader)
    requires
        reader_wf(b),
    ensures
        words_avail(b) >= 0,
{
    reveal(words_avail);
}

proof fn lemma_clean_empty()
    ensures
        buffer_clean(0u32, 0u32),
{
    assert(0u32 & (0xFFFF_FFFFu32 >> 0u32) == 0) by (bit_vector);
}

proof fn lemma_le_word_bounded(input: Seq<u8>, i: int)
    ensures
        le_word(input, i) <= 0xFFFF,
{
    let b0 = byte_or_zero(input, i);
    let b1 = byte_or_zero(input, i + 1);
    assert(b0 | (b1 << 8u32) <= 0xFFFF) by (bit_vector)
        requires
            b0 <= 0xFF,
            b1 <= 0xFF,
    ;
}

/// How much of the stream is left to consume: whole input bytes (two
/// units each), the one-time zero padding, and the buffered bits.
pub open spec fn reader_measure(b: BitReader) -> int {
    64 * (2 * (b.input@.len() + 1 - b.i_ptr) + if b.eof_padded { 0int } else { 1int }) + b.bits_left
}

/// The reader moved forward over the same input.
pub open spec fn reader_next<'a>(old: BitReader<'a>, new: BitReader<'a>) -> bool {
    &&& new.input == old.input
    &&& reader_wf(new)
    &&& reader_measure(new) <= reader_measure(old)
}

impl<'a> BitReader<'a> {
    pub fn new(input: &'a [u8]) -> (r: BitReader<'a>)
        requires
            input@.len() < usize::MAX,
        ensures
            reader_wf(r),
            r.input == input,
            r.i_ptr == 0 && r.bits_left == 0 && r.bit_buffer == 0 && !r.eof_padded,
    {
        proof {
            lemma_clean_empty();
        }
        BitReader { input, i_ptr: 0, bit_buffer: 0, bits_left: 0, eof_padded: false }
    }

    /// Feed the next two input bytes (little-endian) into the buffer below
    /// the bits already there. Past the end of the input the missing bytes
    /// read as zero once; a second overrun is `Read`.
    pub fn read_bytes(&mut self) -> (r: Result<(), LzxError>)
        requires
            reader_wf(*old(self)),
            old(self).bits_left <= 16,
        ensures
            reader_next(*old(self), *final(self)),
            r is Ok ==> final(self).bits_left == old(self).bits_left + 16,
            r is Ok ==> reader_measure(*final(self)) < reader_measure(*old(self)),
            r is Ok ==> final(self).bit_buffer == old(self).bit_buffer
                | (le_word(old(self).input@, old(self).i_ptr as int) << ((16 - old(self).bits_left) as u32)),
            r is Ok ==> final(self).i_ptr == old(self).i_ptr + 2 || (final(self).eof_padded && final(self).i_ptr
                >= final(self).input@.len()),
            old(self).eof_padded && old(self).i_ptr >= old(self).input@.len() ==> r is Err,
            r is Ok <==> words_avail(*old(self)) >= 1,
            r is Ok ==> words_avail(*final(self)) == words_avail(*old(self)) - 1,
            r is Ok ==> forall|k: int| 0 <= k ==> sbit(*final(self), k) == #[trigger] sbit(*old(self), k),
            r is Err ==> r == Err::<(), LzxError>(LzxError::Read),
    {
        reveal(words_avail);
        let len = self.input.len();
        let ghost i0 = self.i_ptr as int;
        let b0: u32;
        let b1: u32;
        if self.i_ptr <= len && len - self.i_ptr >= 2 {
            b0 = self.input[self.i_ptr] as u32;
            b1 = self.input[self.i_ptr + 1] as u32;
            self.i_ptr = self.i_ptr + 2;
            assert((len - i0) / 2 == (len - (i0 + 2)) / 2 + 1);
        } else {
            let mut got: u32 = 0;
            let mut val: u32 = 0;
            while self.i_ptr < len && got < 2
                invariant
                    len == self.input@.len(),
                    len < usize::MAX,
                    self.input == old(self).input,
                    self.eof_padded == old(self).eof_padded,
                    self.bits_left == old(self).bits_left,
                    self.bit_buffer == old(self).bit_buffer,
                    i0 == old(self).i_ptr,
                    self.i_ptr == old(self).i_ptr + got,
                    self.i_ptr <= len || (self.i_ptr == len + 1 && self.eof_padded),
                    got <= 2,
                    val <= 0xFFFF,
                    got == 0 ==> val == 0,
                    got == 1 ==> val == byte_or_zero(self.input@, i0),
                    got == 2 ==> val == le_word(self.input@, i0),
                    !(i0 <= len && len - i0 >= 2),
                    got > 0 ==> self.i_ptr <= len,
                decreases len - self.i_ptr,
            {
                let byte = self.input[self.i_ptr] as u32;
                assert((byte << (8 * got)) <= 0xFF00 && (val | (byte << (8 * got))) <= 0xFFFF
                    && (got == 0 ==> (val | (byte << (8 * got))) <= 0xFF)
                    && (got == 0 ==> (val | (byte << (8 * got))) == byte)
                    && (got == 1 ==> (val | (byte << (8 * got))) == (val | (byte << 8u32)))) by (bit_vector)
                    requires
                        byte <= 0xFF,
                        got <= 1,
                        got == 0 ==> val == 0,
                        val <= 0xFF,
                ;
                val = val | (byte << (8 * got));
                got = got + 1;
                self.i_ptr = self.i_ptr + 1;
            }
            assert((val & 0xFF) <= 0xFF && ((val >> 8u32) & 0xFF) <= 0xFF) by (bit_vector);
            assert(got < 2 && self.i_ptr >= len);
            assert(words_avail(*old(self)) == (if old(self).eof_padded { 0int } else { 1int }));
            if got == 2 {
                b0 = val & 0xFF;
                b1 = (val >> 8) & 0xFF;
                proof {
                    let x0 = byte_or_zero(self.input@, i0);
                    let x1 = byte_or_zero(self.input@, i0 + 1);
                    assert((((x0 | (x1 << 8u32)) >> 8u32) & 0xFF) << 8u32 | ((x0 | (x1 << 8u32)) & 0xFF)
                        == (x0 | (x1 << 8u32))) by (bit_vector)
                        requires
                            x0 <= 0xFF,
                            x1 <= 0xFF,
                    ;
                }
            } else {
                if self.eof_padded {
                    return Err(LzxError::Read);
                }
                self.eof_padded = true;
                b0 = if got >= 1 { val & 0xFF } else { 0 };
                b1 = 0;
                proof {
                    let x0 = byte_or_zero(self.input@, i0);
                    assert(byte_or_zero(self.input@, i0 + 1) == 0);
                    assert(got == 0 ==> x0 == 0);
                    assert(x0 <= 0xFF);
                    assert((x0 & 0xFF) == x0 && ((0u32 << 8u32) | x0) == (x0 | (0u32 << 8u32))) by (bit_vector)
                        requires
                            x0 <= 0xFF,
                    ;
                }
            }
        }
        let left = self.bits_left;
        let ghost buf0 = self.bit_buffer;
        proof {
            if b1 == byte_or_zero(self.input@, i0 + 1) && b0 == byte_or_zero(self.input@, i0) {
                assert(((b1 << 8u32) | b0) == (b0 | (b1 << 8u32))) by (bit_vector);
            }
        }
        assert(((b1 << 8u32) | b0) <= 0xFFFF) by (bit_vector)
            requires
                b0 <= 0xFF,
                b1 <= 0xFF,
        ;
        let w = (b1 << 8) | b0;
        proof {
            lemma_fill_bits(buf0, left, w, 0);
        }
        self.bit_buffer = self.bit_buffer | (w << (16 - left));
        self.bits_left = left + 16;
        proof {
            let o = *old(self);
            let f = *self;
            assert forall|k: int| 0 <= k implies sbit(f, k) == #[trigger] sbit(o, k) by {
                if k < left + 16 {
                    lemma_fill_bits(buf0, left, w, k as u32);
                    if k >= left {
                        let j = k - left;
                        assert(j / 16 == 0 && j % 16 == j);
                    }
                } else {
                    let j = k - left;
                    let j2 = k - (left + 16);
                    assert(j / 16 == j2 / 16 + 1 && j % 16 == j2 % 16);
                    lemma_fill_bits(buf0, left, w, 0);
                    if f.i_ptr != o.i_ptr + 2 {
                        assert(byte_or_zero(o.input@, o.i_ptr + 2 * (j / 16)) == 0);
                        assert(byte_or_zero(o.input@, o.i_ptr + 2 * (j / 16) + 1) == 0);
                        assert(byte_or_zero(f.input@, f.i_ptr + 2 * (j2 / 16)) == 0);
                        assert(byte_or_zero(f.input@, f.i_ptr + 2 * (j2 / 16) + 1) == 0);
                    }
                }
            }
        }
        Ok(())
    }

    /// Make at least `n` bits available.
    pub fn ensure_bits(&mut self, n: u32) -> (r: Result<(), LzxError>)
        requires
            reader_wf(*old(self)),
            n <= 17,
        ensures
            reader_next(*old(self), *final(self)),
            r is Ok <==> bits_avail(*old(self)) >= n,
            r is Ok ==> final(self).bits_left >= n,
            r is Ok ==> bits_avail(*final(self)) == bits_avail(*old(self)),
            r is Ok && old(self).bits_left >= n ==> *final(self) == *old(self),
            r is Ok ==> forall|m: u32| 1 <= m <= n ==> #[trigger] (final(self).bit_buffer >> ((32 - m) as u32)) == upcoming(*old(self), m),
            r is Ok ==> forall|k: int| 0 <= k ==> sbit(*final(self), k) == #[trigger] sbit(*old(self), k),
            r is Err ==> r == Err::<(), LzxError>(LzxError::Read),
    {
        let ghost s0 = *self;
        let ghost input = s0.input@;
        let ghost i0 = s0.i_ptr as int;
        let ghost buf = s0.bit_buffer;
        let ghost left = s0.bits_left;
        let ghost w0 = le_word(input, i0);
        let ghost w1 = le_word(input, i0 + 2);
        let ghost big: u64 = ((buf as u64) << 32u64) | ((w0 as u64) << ((48 - left) as u64))
            | ((w1 as u64) << ((32 - left) as u64));
        proof {
            lemma_words_avail_nonneg(s0);
            lemma_le_word_bounded(input, i0);
            lemma_le_word_bounded(input, i0 + 2);
            assert(forall|m: u32| 1 <= m <= 17 ==> #[trigger] upcoming(s0, m) == (big >> ((64 - m) as u64)) as u32);
        }
        if self.bits_left < n {
            self.read_bytes()?;
            let ghost s1 = *self;
            proof {
                lemma_words_avail_nonneg(s1);
            }
            if self.bits_left < n {
                self.read_bytes()?;
                proof {
                    assert(s1.i_ptr == s0.i_ptr + 2);
                    let b2 = self.bit_buffer;
                    assert(left == 0);
                    assert forall|m: u32| 1 <= m <= n implies #[trigger] (b2 >> ((32 - m) as u32)) == (big >> ((64 - m) as u64)) as u32 by {
                        assert(b2 >> ((32 - m) as u32) == (big >> ((64 - m) as u64)) as u32) by (bit_vector)
                            requires
                                buffer_clean(buf, left),
                                left == 0,
                                1 <= m <= 17,
                                w0 <= 0xFFFF,
                                w1 <= 0xFFFF,
                                b2 == (buf | (w0 << ((16 - left) as u32))) | (w1 << 0u32),
                                big == ((buf as u64) << 32u64) | ((w0 as u64) << ((48 - left) as u64))
                                    | ((w1 as u64) << ((32 - left) as u64)),
                        ;
                    }
                }
            } else {
                proof {
                    let b1 = self.bit_buffer;
                    assert forall|m: u32| 1 <= m <= n implies #[trigger] (b1 >> ((32 - m) as u32)) == (big >> ((64 - m) as u64)) as u32 by {
                        assert(b1 >> ((32 - m) as u32) == (big >> ((64 - m) as u64)) as u32) by (bit_vector)
                            requires
                                buffer_clean(buf, left),
                                left <= 16,
                                m <= left + 16,
                                m <= 17,
                                1 <= m,
                                w0 <= 0xFFFF,
                                w1 <= 0xFFFF,
                                b1 == buf | (w0 << ((16 - left) as u32)),
                                big == ((buf as u64) << 32u64) | ((w0 as u64) << ((48 - left) as u64))
                                    | ((w1 as u64) << ((32 - left) as u64)),
                        ;
                    }
                }
            }
        } else {
            proof {
                assert forall|m: u32| 1 <= m <= n implies #[trigger] (buf >> ((32 - m) as u32)) == (big >> ((64 - m) as u64)) as u32 by {
                    assert(buf >> ((32 - m) as u32) == (big >> ((64 - m) as u64)) as u32) by (bit_vector)
                        requires
                            buffer_clean(buf, left),
                            m <= left,
                            left <= 32,
                            m <= 17,
                            1 <= m,
                            w0 <= 0xFFFF,
                            w1 <= 0xFFFF,
                            big == ((buf as u64) << 32u64) | ((w0 as u64) << ((48 - left) as u64))
                                | ((w1 as u64) << ((32 - left) as u64)),
                    ;
                }
            }
        }
        Ok(())
    }

    /// The top `n` bits of the buffer.
    pub fn peek_bits(&self, n: u32) -> (v: u32)
        requires
            1 <= n <= 32,
        ensures
            v == self.bit_buffer >> ((32 - n) as u32),
    {
        self.bit_buffer >> (32 - n)
    }

    /// Drop the top `n` bits of the buffer.
    pub fn remove_bits(&mut self, n: u32)
        requires
            reader_wf(*old(self)),
            n <= old(self).bits_left,
            n < 32,
        ensures
            reader_next(*old(self), *final(self)),
            final(self).bits_left == old(self).bits_left - n,
            final(self).bit_buffer == old(self).bit_buffer << n,
            final(self).i_ptr == old(self).i_ptr,
            final(self).eof_padded == old(self).eof_padded,
            words_avail(*final(self)) == words_avail(*old(self)),
            forall|k: int| 0 <= k ==> sbit(*final(self), k) == #[trigger] sbit(*old(self), k + n),
    {
        reveal(words_avail);
        let ghost buf0 = self.bit_buffer;
        let ghost left0 = self.bits_left;
        proof {
            lemma_shift_bits(buf0, left0, n, 0);
        }
        self.bit_buffer = self.bit_buffer << n;
        self.bits_left = self.bits_left - n;
        proof {
            let o = *old(self);
            let f = *self;
            assert forall|k: int| 0 <= k implies sbit(f, k) == #[trigger] sbit(o, k + n) by {
                if k < left0 - n {
                    lemma_shift_bits(buf0, left0, n, k as u32);
                }
            }
        }
    }

    /// The next `n` bits of the stream as a number (0 when `n` is 0).
    pub fn read_bits(&mut self, n: u32) -> (r: Result<u32, LzxError>)
        requires
            reader_wf(*old(self)),
            n <= 17,
        ensures
            reader_next(*old(self), *final(self)),
            r matches Ok(v) ==> (n == 0 ==> v == 0) && (v as int) < (1u64 << n) as int && v < 0x2_0000,
            r matches Ok(v) ==> (n > 0 ==> v == upcoming(*old(self), n)),
            r matches Ok(v) ==> v as nat == stream_val(*old(self), 0, n as nat),
            r is Ok ==> forall|k: int| 0 <= k ==> sbit(*final(self), k) == #[trigger] sbit(*old(self), k + n),
            r is Ok <==> bits_avail(*old(self)) >= n,
            r is Ok ==> bits_avail(*final(self)) == bits_avail(*old(self)) - n,
            r is Ok && n > 0 ==> reader_measure(*final(self)) < reader_measure(*old(self)),
            r is Err ==> r == Err::<u32, LzxError>(LzxError::Read),
    {
        proof {
            lemma_words_avail_nonneg(*self);
        }
        if n == 0 {
            assert((1u64 << 0u32) == 1) by (bit_vector);
            return Ok(0);
        }
        let ghost s0 = *self;
        self.ensure_bits(n)?;
        let ghost s1 = *self;
        let v = self.peek_bits(n);
        let buf = self.bit_buffer;
        assert(((buf >> ((32 - n) as u32)) as u64) < (1u64 << n) && (buf >> ((32 - n) as u32)) < 0x2_0000) by (bit_vector)
            requires
                1 <= n <= 17,
        ;
        self.remove_bits(n);
        proof {
            lemma_upcoming_stream(s0, n);
            assert forall|k: int| 0 <= k implies sbit(*self, k) == #[trigger] sbit(s0, k + n) by {
                assert(sbit(*self, k) == sbit(s1, k + n));
                assert(sbit(s1, k + n) == sbit(s0, k + n));
            }
        }
        Ok(v)
    }
}

// ---------------------------------------------------------------------------
// Huffman tables
// ---------------------------------------------------------------------------

/// The bytes an uncompressed block can still take from the reader: the rest
/// of the input, then one zero byte if none was supplied yet.
pub open spec fn stored_bytes(b: BitReader) -> Seq<u8> {
    (if b.i_ptr <= b.input@.len() { b.input@.subrange(b.i_ptr as int, b.input@.len() as int) } else { Seq::empty() })
        + if b.eof_padded { Seq::<u8>::empty() } else { seq![0u8] }
}

/// The Kraft sum of the code lengths `l[..n]` against codes of at most
/// `maxlen` bits: each length `L` in `1..=maxlen` weighs `2^(maxlen - L)`,
/// other lengths (0 for an unused symbol, or longer codes) weigh nothing.
/// A complete prefix code of at most `maxlen` bits sums to `2^maxlen`.
pub open spec fn kraft_sum(l: Seq<u8>, n: int, maxlen: nat) -> int
    decreases n,
{
    if n <= 0 {
        0
    } else {
        kraft_sum(l, n - 1, maxlen) + if 1 <= l[n - 1] && l[n - 1] <= maxlen {
            pow2((maxlen - l[n - 1]) as nat) as int
        } else {
            0
        }
    }
}

/// The lengths `l[..n]` describe a code that a lookup of `nbits` bits
/// decodes completely, or a complete code of at most 16 bits.
pub open spec fn decodable(l: Seq<u8>, n: int, nbits: nat) -> bool {
    kraft_sum(l, n, nbits) == pow2(nbits) || kraft_sum(l, n, 16) == pow2(16)
}

/// The weight of the codes of length `len` among `l[..s]`, each weighing `w`.
pub open spec fn level_count(l: Seq<u8>, s: int, len: int, w: int) -> int
    decreases s,
{
    if s <= 0 {
        0
    } else {
        level_count(l, s - 1, len, w) + if l[s - 1] == len { w } else { 0 }
    }
}

/// The weight of the codes of lengths `1..=lev` among `l[..n]`, taken level
/// by level as the table is filled.
pub open spec fn levels(l: Seq<u8>, n: int, maxlen: nat, lev: int) -> int
    decreases lev,
{
    if lev <= 0 {
        0
    } else {
        levels(l, n, maxlen, lev - 1) + level_count(l, n, lev, pow2((maxlen - lev) as nat) as int)
    }
}

/// The Kraft sum of `l[..n]` over the lengths `1..=top` only.
spec fn kraft_top(l: Seq<u8>, n: int, maxlen: nat, top: int) -> int
    decreases n,
{
    if n <= 0 {
        0
    } else {
        kraft_top(l, n - 1, maxlen, top) + if 1 <= l[n - 1] && l[n - 1] <= top {
            pow2((maxlen - l[n - 1]) as nat) as int
        } else {
            0
        }
    }
}

proof fn lemma_kraft_top_full(l: Seq<u8>, n: int, maxlen: nat)
    ensures
        kraft_top(l, n, maxlen, maxlen as int) == kraft_sum(l, n, maxlen),
    decreases n,
{
    if n > 0 {
        lemma_kraft_top_full(l, n - 1, maxlen);
    }
}

proof fn lemma_level_count_bounds(l: Seq<u8>, s: int, n: int, len: int, w: int)
    requires
        s <= n,
        w >= 0,
    ensures
        0 <= level_count(l, s, len, w) <= level_count(l, n, len, w),
    decreases n,
{
    if n > s && n > 0 {
        lemma_level_count_bounds(l, s, n - 1, len, w);
    } else if s > 0 {
        lemma_level_count_bounds(l, s - 1, s - 1, len, w);
    }
}

proof fn lemma_levels_mono(l: Seq<u8>, n: int, maxlen: nat, lev: int, top: int)
    requires
        lev <= top,
    ensures
        levels(l, n, maxlen, lev) <= levels(l, n, maxlen, top),
    decreases top,
{
    if top > lev && top > 0 {
        lemma_levels_mono(l, n, maxlen, lev, top - 1);
        lemma_level_count_bounds(l, n, n, top, pow2((maxlen - top) as nat) as int);
    }
}

proof fn lemma_levels_empty(l: Seq<u8>, n: int, maxlen: nat, lev: int)
    requires
        n <= 0,
    ensures
        levels(l, n, maxlen, lev) == 0,
    decreases lev,
{
    if lev > 0 {
        lemma_levels_empty(l, n, maxlen, lev - 1);
    }
}

/// Adding one symbol adds its weight to the level-by-level sum.
proof fn lemma_levels_step(l: Seq<u8>, n: int, maxlen: nat, lev: int)
    requires
        n > 0,
    ensures
        levels(l, n, maxlen, lev) == levels(l, n - 1, maxlen, lev) + if 1 <= l[n - 1] && l[n - 1] <= lev {
            pow2((maxlen - l[n - 1]) as nat) as int
        } else {
            0
        },
    decreases lev,
{
    if lev > 0 {
        lemma_levels_step(l, n, maxlen, lev - 1);
    }
}

/// Level by level or symbol by symbol, the weights add up the same.
proof fn lemma_levels_kraft(l: Seq<u8>, n: int, maxlen: nat, lev: int)
    ensures
        levels(l, n, maxlen, lev) == kraft_top(l, n, maxlen, lev),
    decreases n,
{
    if n <= 0 {
        lemma_levels_empty(l, n, maxlen, lev);
    } else {
        lemma_levels_step(l, n, maxlen, lev);
        lemma_levels_kraft(l, n - 1, maxlen, lev);
    }
}

proof fn lemma_level_count_scale(l: Seq<u8>, s: int, len: int, w: int)
    ensures
        level_count(l, s, len, w * 65536) == level_count(l, s, len, w) * 65536,
    decreases s,
{
    if s > 0 {
        lemma_level_count_scale(l, s - 1, len, w);
    }
}

/// Weighing against 16 more bits multiplies the short levels by `2^16`.
proof fn lemma_levels_scale(l: Seq<u8>, n: int, m: nat, lev: int)
    requires
        lev <= m,
    ensures
        levels(l, n, m + 16, lev) == levels(l, n, m, lev) * 65536,
    decreases lev,
{
    if lev > 0 {
        lemma_levels_scale(l, n, m, lev - 1);
        let e = (m - lev) as nat;
        lemma_pow2_adds(e, 16);
        lemma2_to64();
        assert((m + 16 - lev) as nat == e + 16);
        lemma_level_count_scale(l, n, lev, pow2(e) as int);
    }
}

/// Against `m + 16` bits, the codes of at most 16 bits weigh `2^m` times
/// their Kraft sum against 16 bits.
proof fn lemma_kraft_top_scale(l: Seq<u8>, n: int, m: nat)
    ensures
        kraft_top(l, n, m + 16, 16) == pow2(m) * kraft_sum(l, n, 16),
    decreases n,
{
    if n > 0 {
        lemma_kraft_top_scale(l, n - 1, m);
        let t: int = if 1 <= l[n - 1] && l[n - 1] <= 16 {
            pow2((16 - l[n - 1]) as nat) as int
        } else {
            0
        };
        if 1 <= l[n - 1] && l[n - 1] <= 16 {
            let e = (16 - l[n - 1]) as nat;
            lemma_pow2_adds(m, e);
            assert((m + 16 - l[n - 1]) as nat == m + e);
        }
        lemma_mul_is_distributive_add(pow2(m) as int, kraft_sum(l, n - 1, 16), t);
    }
}

/// Lengths that are all zero give a Kraft sum of zero.
proof fn lemma_kraft_zero(l: Seq<u8>, n: int, maxlen: nat)
    requires
        n <= l.len(),
        forall|i: int| 0 <= i < n ==> l[i] == 0,
    ensures
        kraft_sum(l, n, maxlen) == 0,
    decreases n,
{
    if n > 0 {
        lemma_kraft_zero(l, n - 1, maxlen);
    }
}

/// How many lookup slots symbol `s` fills: `2^(nbits - len)`.
pub open spec fn code_width(l: Seq<u8>, nbits: nat, s: int) -> int {
    pow2((nbits - l[s]) as nat) as int
}

/// Where symbol `s`'s lookup slots start in the canonical order: after every
/// shorter code, then after the codes of its own length on lower symbols.
pub open spec fn code_pos(l: Seq<u8>, n: int, nbits: nat, s: int) -> int {
    levels(l, n, nbits, l[s] - 1) + level_count(l, s, l[s] as int, code_width(l, nbits, s))
}

/// Symbol `s` has been placed once the level loop is at (`bit_num`, `sym`).
spec fn placed(l: Seq<u8>, n: int, bit_num: int, sym: int, s: int) -> bool {
    0 <= s < n && 1 <= l[s] && (l[s] < bit_num || (l[s] == bit_num && s < sym))
}

/// A placed symbol's slots lie before the next free slot.
proof fn lemma_placed_before(l: Seq<u8>, n: int, nbits: nat, bit_num: int, sym: int, s: int)
    requires
        placed(l, n, bit_num, sym, s),
        1 <= bit_num <= nbits,
        0 <= sym <= n,
        n <= l.len(),
    ensures
        0 <= code_pos(l, n, nbits, s),
        code_pos(l, n, nbits, s) + code_width(l, nbits, s)
            <= levels(l, n, nbits, bit_num - 1) + level_count(l, sym, bit_num, pow2((nbits - bit_num) as nat) as int),
{
    let len = l[s] as int;
    let w = code_width(l, nbits, s);
    lemma_pow2_pos((nbits - len) as nat);
    lemma_pow2_pos((nbits - bit_num) as nat);
    lemma_levels_mono(l, n, nbits, 0, len - 1);
    lemma_level_count_bounds(l, s, s + 1, len, w);
    lemma_level_count_bounds(l, 0, sym, bit_num, pow2((nbits - bit_num) as nat) as int);
    assert(level_count(l, s + 1, len, w) == level_count(l, s, len, w) + w);
    if len == bit_num {
        lemma_level_count_bounds(l, s + 1, sym, len, w);
    } else {
        lemma_level_count_bounds(l, s + 1, n, len, w);
        assert(levels(l, n, nbits, len) == levels(l, n, nbits, len - 1) + level_count(l, n, len, w));
        lemma_levels_mono(l, n, nbits, len, bit_num - 1);
    }
}

/// `1 << nbits` for the table sizes in use.
proof fn lemma_table_size(nbits: u32)
    requires
        6 <= nbits <= 12,
    ensures
        (1usize << nbits) == pow2(nbits as nat),
        64 <= (1usize << nbits) <= 4096,
{
    lemma2_to64();
    assert((nbits == 6 ==> (1usize << nbits) == 64) && (nbits == 7 ==> (1usize << nbits) == 128)
        && (nbits == 8 ==> (1usize << nbits) == 256) && (nbits == 9 ==> (1usize << nbits) == 512)
        && (nbits == 10 ==> (1usize << nbits) == 1024) && (nbits == 11 ==> (1usize << nbits) == 2048)
        && (nbits == 12 ==> (1usize << nbits) == 4096)) by (bit_vector)
        requires
            6 <= nbits <= 12,
    ;
    if nbits == 6 {
    } else if nbits == 7 {
    } else if nbits == 8 {
    } else if nbits == 9 {
    } else if nbits == 10 {
    } else if nbits == 11 {
    } else {
    }
}

/// Build the fast-lookup table of a canonical Huffman code with `nsyms`
/// symbols whose code lengths are `length[..nsyms]`, looking up `nbits` bits
/// directly: codes of at most `nbits` bits fill their slots of the first
/// `2^nbits` entries, unused slots hold `0xFFFF`, and longer codes continue
/// through pairs of link entries past them. Returns `true` (failure) when
/// the lengths do not form a complete code: it succeeds whenever the codes
/// of at most `nbits` bits fill the lookup exactly, and fails whenever
/// neither they nor the codes of at most 16 bits form a complete code (or
/// when the links of a long code would leave the table).
pub fn make_decode_table(nsyms: usize, nbits: u32, length: &Vec<u8>, table: &mut Vec<u16>) -> (failed: bool)
    requires
        nsyms <= length@.len(),
        nsyms <= 0x1_0000,
        6 <= nbits <= 12,
    ensures
        kraft_sum(length@, nsyms as int, nbits as nat) == pow2(nbits as nat) ==> !failed,
        !failed ==> decodable(length@, nsyms as int, nbits as nat),
        !failed ==> final(table)@.len() >= (1usize << nbits),
        kraft_sum(length@, nsyms as int, nbits as nat) == pow2(nbits as nat) ==> forall|s: int, i: int|
            #![trigger final(table)@[i], code_pos(length@, nsyms as int, nbits as nat, s)]
            0 <= s < nsyms && 1 <= length@[s] <= nbits && code_pos(length@, nsyms as int, nbits as nat, s) <= i
                < code_pos(length@, nsyms as int, nbits as nat, s) + code_width(length@, nbits as nat, s)
                ==> final(table)@[i] as int == s,
{
    let table_size: usize = 1usize << nbits;
    proof {
        lemma_table_size(nbits);
        lemma2_to64();
        lemma_levels_kraft(length@, nsyms as int, nbits as nat, nbits as int);
        lemma_kraft_top_full(length@, nsyms as int, nbits as nat);
    }
    let ghost l = length@;
    let ghost n = nsyms as int;
    let ghost short = kraft_sum(l, n, nbits as nat);
    table.clear();
    while table.len() < table_size
        invariant
            table@.len() <= table_size,
            table_size <= 4096,
        decreases table_size - table@.len(),
    {
        table.push(0u16);
    }
    let mut pos: u64 = 0;
    let table_mask: u64 = table_size as u64;
    let mut bit_mask: u64 = table_mask / 2;
    proof {
        lemma_pow2_unfold(nbits as nat);
        assert(((nbits - 1) as nat) == (nbits - 1) as nat);
    }
    let mut bit_num: u32 = 1;
    while bit_num <= nbits
        invariant
            1 <= bit_num <= nbits + 1,
            6 <= nbits <= 12,
            table@.len() == table_size,
            table_mask == table_size,
            table_size == pow2(nbits as nat),
            64 <= table_size <= 4096,
            nsyms <= length@.len(),
            nsyms <= 0x1_0000,
            l == length@,
            n == nsyms,
            short == kraft_sum(l, n, nbits as nat),
            short == levels(l, n, nbits as nat, nbits as int),
            pos <= table_mask,
            bit_mask <= table_mask,
            bit_num <= nbits ==> bit_mask == pow2((nbits - bit_num) as nat),
            pos == levels(l, n, nbits as nat, bit_num - 1),
            forall|s: int, i: int| #![trigger table@[i], code_pos(l, n, nbits as nat, s)]
                placed(l, n, bit_num as int, 0, s) && code_pos(l, n, nbits as nat, s) <= i
                    < code_pos(l, n, nbits as nat, s) + code_width(l, nbits as nat, s) ==> table@[i] as int == s,
        decreases nbits + 1 - bit_num,
    {
        let mut sym: usize = 0;
        while sym < nsyms
            invariant
                table@.len() == table_size,
                table_mask == table_size,
                table_size == pow2(nbits as nat),
                64 <= table_size <= 4096,
                nsyms <= length@.len(),
                nsyms <= 0x1_0000,
                l == length@,
                n == nsyms,
                short == levels(l, n, nbits as nat, nbits as int),
                short == kraft_sum(l, n, nbits as nat),
                pos <= table_mask,
                bit_mask <= table_mask,
                1 <= bit_num <= nbits,
                bit_num <= 13,
                bit_mask == pow2((nbits - bit_num) as nat),
                sym <= nsyms,
                pos == levels(l, n, nbits as nat, bit_num - 1) + level_count(l, sym as int, bit_num as int, bit_mask as int),
                forall|s: int, i: int| #![trigger table@[i], code_pos(l, n, nbits as nat, s)]
                    placed(l, n, bit_num as int, sym as int, s) && code_pos(l, n, nbits as nat, s) <= i
                        < code_pos(l, n, nbits as nat, s) + code_width(l, nbits as nat, s) ==> table@[i] as int == s,
            decreases nsyms - sym,
        {
            if length[sym] as u32 == bit_num {
                let leaf = pos as usize;
                pos = pos + bit_mask;
                if pos > table_mask {
                    proof {
                        assert(level_count(l, sym + 1, bit_num as int, bit_mask as int)
                            == level_count(l, sym as int, bit_num as int, bit_mask as int) + bit_mask);
                        lemma_level_count_bounds(l, sym + 1, n, bit_num as int, bit_mask as int);
                        assert(levels(l, n, nbits as nat, bit_num as int) == levels(l, n, nbits as nat, bit_num - 1)
                            + level_count(l, n, bit_num as int, bit_mask as int));
                        lemma_levels_mono(l, n, nbits as nat, bit_num as int, nbits as int);
                        assert(short > table_mask);
                    }
                    return true;
                }
                let ghost t0 = table@;
                proof {
                    assert(code_pos(l, n, nbits as nat, sym as int) == leaf);
                    assert(code_width(l, nbits as nat, sym as int) == bit_mask);
                    assert forall|s2: int| placed(l, n, bit_num as int, sym as int, s2) implies
                        0 <= #[trigger] code_pos(l, n, nbits as nat, s2) && code_pos(l, n, nbits as nat, s2)
                            + code_width(l, nbits as nat, s2) <= leaf by {
                        lemma_placed_before(l, n, nbits as nat, bit_num as int, sym as int, s2);
                    }
                }
                let mut k: u64 = 0;
                while k < bit_mask
                    invariant
                        table@.len() == table_size,
                        table_mask == table_size,
                        leaf + bit_mask <= table_mask,
                        k <= bit_mask,
                        sym < 0x1_0000,
                        forall|i: int| 0 <= i < leaf ==> table@[i] == t0[i],
                        forall|i: int| leaf <= i < leaf + k ==> table@[i] as int == sym,
                    decreases bit_mask - k,
                {
                    table.set(leaf + k as usize, sym as u16);
                    k = k + 1;
                }
                proof {
                    assert forall|s2: int, i: int| #![trigger table@[i], code_pos(l, n, nbits as nat, s2)]
                        placed(l, n, bit_num as int, sym + 1, s2) && code_pos(l, n, nbits as nat, s2) <= i
                            < code_pos(l, n, nbits as nat, s2) + code_width(l, nbits as nat, s2) implies table@[i] as int == s2 by {
                        if s2 != sym {
                            assert(placed(l, n, bit_num as int, sym as int, s2));
                            assert(0 <= code_pos(l, n, nbits as nat, s2) && code_pos(l, n, nbits as nat, s2)
                                + code_width(l, nbits as nat, s2) <= leaf);
                            assert(t0[i] as int == s2);
                        }
                    }
                }
            }
            sym = sym + 1;
        }
        proof {
            if bit_num < nbits {
                lemma_pow2_unfold((nbits - bit_num) as nat);
            }
        }
        bit_mask = bit_mask / 2;
        bit_num = bit_num + 1;
    }
    if pos == table_mask {
        return false;
    }
    let mut i: usize = pos as usize;
    while i < table_size
        invariant
            table@.len() == table_size,
            i <= table_size,
        decreases table_size - i,
    {
        table.set(i, 0xFFFF);
        i = i + 1;
    }
    let half: usize = (table_mask / 2) as usize;
    let mut next_symbol: usize = if half < nsyms { nsyms } else { half };
    assert((pos << 16u64) <= 0x1000_0000 && (table_mask << 16u64) <= 0x1000_0000
        && (pos << 16u64) <= (table_mask << 16u64) && (pos << 16u64) == pos * 65536
        && (table_mask << 16u64) == table_mask * 65536) by (bit_vector)
        requires
            pos <= table_mask,
            table_mask <= 4096,
    ;
    let mut lpos: u64 = pos << 16;
    let lmask: u64 = table_mask << 16;
    let mut lbit: u64 = 0x8000;
    let mut bit_num: u32 = nbits + 1;
    proof {
        lemma_levels_scale(l, n, nbits as nat, nbits as int);
        assert((nbits as nat + 16 - (nbits + 1)) as nat == 15);
    }
    while bit_num <= 16
        invariant
            nbits + 1 <= bit_num <= 17,
            6 <= nbits <= 12,
            table@.len() >= table_size,
            64 <= table_size <= 4096,
            lmask <= 0x1000_0000,
            lpos <= lmask + 0x8000,
            lbit <= 0x8000,
            nsyms <= length@.len(),
            nsyms <= 0x1_0000,
            next_symbol <= 0x10_0000,
            l == length@,
            n == nsyms,
            short != pow2(nbits as nat),
            short == kraft_sum(l, n, nbits as nat),
            lmask == pow2(nbits as nat) * 65536,
            bit_num <= 16 ==> lbit == pow2((nbits + 16 - bit_num) as nat),
            lpos == levels(l, n, nbits as nat + 16, bit_num - 1),
        decreases 17 - bit_num,
    {
        let mut sym: usize = 0;
        while sym < nsyms
            invariant
                table@.len() >= table_size,
                64 <= table_size <= 4096,
                lmask <= 0x1000_0000,
                lpos <= lmask + 0x8000,
                lbit <= 0x8000,
                nsyms <= length@.len(),
                nsyms <= 0x1_0000,
                next_symbol <= 0x10_0000,
                nbits + 1 <= bit_num <= 16,
                6 <= nbits <= 12,
                l == length@,
                n == nsyms,
                short != pow2(nbits as nat),
                short == kraft_sum(l, n, nbits as nat),
                sym <= nsyms,
                lbit == pow2((nbits + 16 - bit_num) as nat),
                lpos == levels(l, n, nbits as nat + 16, bit_num - 1) + level_count(l, sym as int, bit_num as int, lbit as int),
            decreases nsyms - sym,
        {
            if length[sym] as u32 == bit_num {
                if lpos >= lmask {
                    return true;
                }
                assert((lpos >> 16u64) <= 0x2000) by (bit_vector)
                    requires
                        lpos < 0x1000_0000,
                ;
                let mut leaf: usize = (lpos >> 16) as usize;
                let mut fill: u32 = 0;
                while fill < bit_num - nbits
                    invariant
                        table@.len() >= table_size,
                        64 <= table_size <= 4096,
                        next_symbol <= 0x10_0000,
                        fill <= bit_num - nbits,
                        nbits + 1 <= bit_num <= 16,
                        6 <= nbits <= 12,
                        leaf <= 0x2_0000,
                        l == length@,
                        n == nsyms,
                        short != pow2(nbits as nat),
                        short == kraft_sum(l, n, nbits as nat),
                    decreases bit_num - nbits - fill,
                {
                    if leaf >= table.len() {
                        return true;
                    }
                    if table[leaf] == 0xFFFF {
                        if next_symbol >= 0x10_0000 {
                            return true;
                        }
                        let ne = next_symbol;
                        while table.len() <= ne * 2 + 1
                            invariant
                                table@.len() >= table_size,
                                ne < 0x10_0000,
                                leaf < table@.len(),
                            decreases ne * 2 + 2 - table@.len(),
                        {
                            table.push(0xFFFF);
                        }
                        table.set(ne * 2, 0xFFFF);
                        table.set(ne * 2 + 1, 0xFFFF);
                        table.set(leaf, #[verifier::truncate] (ne as u16));
                        next_symbol = next_symbol + 1;
                    }
                    let link = table[leaf] as usize;
                    leaf = link * 2;
                    if ((lpos >> (15 - fill) as u64) & 1) != 0 {
                        leaf = leaf + 1;
                    }
                    fill = fill + 1;
                }
                if leaf >= table.len() {
                    return true;
                }
                table.set(leaf, sym as u16);
                lpos = lpos + lbit;
            }
            sym = sym + 1;
        }
        proof {
            if bit_num < 16 {
                lemma_pow2_unfold((nbits + 16 - bit_num) as nat);
            }
        }
        lbit = lbit / 2;
        bit_num = bit_num + 1;
    }
    proof {
        lemma_levels_kraft(l, n, nbits as nat + 16, 16);
        lemma_kraft_top_scale(l, n, nbits as nat);
        lemma_pow2_pos(nbits as nat);
        let p = pow2(nbits as nat) as int;
        let k16 = kraft_sum(l, n, 16);
        if lpos == lmask {
            assert(k16 == 65536) by (nonlinear_arith)
                requires
                    p > 0,
                    p * k16 == p * 65536,
            ;
        }
    }
    lpos != lmask
}

impl<'a> BitReader<'a> {
    /// Decode one symbol with a table built by `make_decode_table` for
    /// `nsyms` symbols and `tablebits` lookup bits, and consume its code
    /// length from `len`. A lookup that leaves the table, a long code that
    /// runs out of bits, or a code longer than 16 bits is `Decrunched`.
    pub fn read_huffsym(&mut self, table: &Vec<u16>, nsyms: usize, tablebits: u32, len: &Vec<u8>) -> (r: Result<u16, LzxError>)
        requires
            reader_wf(*old(self)),
            6 <= tablebits <= 12,
        ensures
            reader_next(*old(self), *final(self)),
            r matches Ok(sym) ==> (sym as int) < nsyms && (sym as int) < len@.len() && len@[sym as int] <= 16,
            r matches Ok(sym) ==> bits_avail(*final(self)) == bits_avail(*old(self)) - len@[sym as int],
            r is Ok ==> bits_avail(*old(self)) >= 16,
            r matches Err(e) ==> e != LzxError::Args,
            r matches Ok(sym) ==> forall|k: int| 0 <= k ==> sbit(*final(self), k) == #[trigger] sbit(*old(self), k + len@[sym as int]),
            huff_lookup(
                table@,
                nsyms as int,
                stream_val(*old(self), 0, tablebits as nat) as int,
                stream_val(*old(self), 0, 16) as u32,
                tablebits,
            ) matches Some(s) ==> ((r is Ok <==> bits_avail(*old(self)) >= 16 && s < len@.len() && len@[s] <= 16)
                && (r is Ok ==> r == Ok::<u16, LzxError>(s as u16))),
    {
        proof {
            lemma_upcoming_stream(*old(self), tablebits);
            lemma_upcoming_stream(*old(self), 16);
        }
        let ghost s0 = *self;
        self.ensure_bits(16)?;
        let ghost s1 = *self;
        let ghost top = upcoming(*old(self), 16);
        let ghost want = huff_lookup(table@, nsyms as int, upcoming(*old(self), tablebits) as int, top, tablebits);
        assert(self.bit_buffer >> ((32 - tablebits) as u32) == upcoming(*old(self), tablebits));
        assert(self.bit_buffer >> ((32 - 16u32) as u32) == upcoming(*old(self), 16u32));
        assert(self.bit_buffer >> 16u32 == top);
        let idx = self.peek_bits(tablebits) as usize;
        if idx >= table.len() {
            return Err(LzxError::Decrunched);
        }
        let mut sym: u16 = table[idx];
        if (sym as usize) >= nsyms {
            let mut probe: u32 = 1u32 << (32 - tablebits);
            let ghost mut k: u32 = tablebits;
            loop
                invariant_except_break
                    (sym as usize) >= nsyms,
                invariant
                    reader_next(*old(self), *self),
                    self.bits_left >= 16,
                    idx < table@.len(),
                    idx as int == upcoming(*old(self), tablebits) as int,
                    (table@[idx as int] as int) >= nsyms,
                    self.bit_buffer >> 16u32 == top,
                    top == upcoming(*old(self), 16u32),
                    upcoming(*old(self), tablebits) as nat == stream_val(*old(self), 0, tablebits as nat),
                    upcoming(*old(self), 16u32) as nat == stream_val(*old(self), 0, 16),
                    6 <= k <= 32,
                    probe == 1u32 << ((32 - k) as u32),
                    want == huff_lookup(table@, nsyms as int, idx as int, top, tablebits),
                    k <= 16 ==> huff_walk(table@, nsyms as int, top, sym as int, k) == want,
                    k > 16 ==> want is None,
                ensures
                    (sym as usize) < nsyms,
                    k <= 16 ==> want == Some(sym as int),
                    k > 16 ==> want is None,
                decreases probe,
            {
                let prev = probe;
                proof {
                    lemma_probe_bit(self.bit_buffer, top, k);
                }
                probe = probe >> 1;
                if probe == 0 {
                    assert(k == 32);
                    assert(want is None);
                    return Err(LzxError::Decrunched);
                }
                let bit: usize = if (self.bit_buffer & probe) != 0 { 1 } else { 0 };
                let j = (sym as usize) * 2 + bit;
                proof {
                    if k < 16 {
                        assert(bit as int == ((top >> ((15 - k) as u32)) & 1u32) as int);
                    }
                }
                if j >= table.len() {
                    assert(want is None);
                    return Err(LzxError::Decrunched);
                }
                sym = table[j];
                proof {
                    k = (k + 1) as u32;
                }
                if (sym as usize) < nsyms {
                    break;
                }
            }
        }
        if (sym as usize) >= len.len() {
            return Err(LzxError::Decrunched);
        }
        let codelen = len[sym as usize] as u32;
        if codelen > 16 {
            return Err(LzxError::Decrunched);
        }
        self.remove_bits(codelen);
        proof {
            assert forall|k: int| 0 <= k implies sbit(*self, k) == #[trigger] sbit(s0, k + codelen) by {
                assert(sbit(s1, k + codelen) == sbit(s0, k + codelen));
            }
        }
        Ok(sym)
    }
}

/// The symbol a Huffman table gives once the walk has reached symbol or
/// node `sym` after `k` of the 16 bits `top`: a symbol below `nsyms` is the
/// answer; a node is followed by its next bit (`2 * node + bit`); `None`
/// when the walk leaves the table or needs more than 16 bits.
pub open spec fn huff_walk(table: Seq<u16>, nsyms: int, top: u32, sym: int, k: u32) -> Option<int>
    decreases 16 - k,
{
    if sym < nsyms {
        Some(sym)
    } else if k >= 16 {
        None
    } else {
        let j = sym * 2 + ((top >> ((15 - k) as u32)) & 1u32) as int;
        if j < 0 || j >= table.len() { None } else { huff_walk(table, nsyms, top, table[j] as int, (k + 1) as u32) }
    }
}

/// The symbol a Huffman table decodes from the next 16 bits `top`, whose
/// first `tablebits` bits are `idx`.
pub open spec fn huff_lookup(table: Seq<u16>, nsyms: int, idx: int, top: u32, tablebits: u32) -> Option<int> {
    if idx < 0 || idx >= table.len() { None } else { huff_walk(table, nsyms, top, table[idx] as int, tablebits) }
}

/// The walk's probe bit `31 - k` of the buffer is bit `15 - k` of its top
/// half, and halving the probe moves it one bit down.
proof fn lemma_probe_bit(buf: u32, top: u32, k: u32)
    by (bit_vector)
    requires
        6 <= k <= 32,
        top == buf >> 16u32,
    ensures
        (1u32 << ((32 - k) as u32)) >> 1u32 == (if k < 32 { 1u32 << ((31 - k) as u32) } else { 0u32 }),
        (1u32 << ((32 - k) as u32)) >> 1u32 < (1u32 << ((32 - k) as u32)),
        k < 32 ==> (1u32 << ((31 - k) as u32)) != 0,
        k < 16 ==> ((buf & (1u32 << ((31 - k) as u32))) != 0) == (((top >> ((15 - k) as u32)) & 1u32) == 1u32),
        k < 16 ==> ((top >> ((15 - k) as u32)) & 1u32) <= 1,
{
}

// ---------------------------------------------------------------------------
// Code lengths
// ---------------------------------------------------------------------------

const PRETREE_NUM_ELEMENTS: usize = 20;
const LENTABLE_SAFETY: usize = 64;
const PRETREE_TABLEBITS: u32 = 6;

/// One delta-coded length: `(prev - z) mod 17`, stored in a byte.
pub open spec fn spec_delta_len(prev: u8, z: u32) -> u8 {
    let d = prev as int - z as int;
    (if d < 0 { d + 17 } else { d }) as u8
}

fn delta_len(prev: u8, z: u32) -> (v: u8)
    requires
        z < 0x1_0000,
    ensures
        v == spec_delta_len(prev, z),
{
    let mut zv: i32 = prev as i32 - z as i32;
    if zv < 0 {
        zv = zv + 17;
    }
    #[verifier::truncate] (zv as u8)
}

/// Read the code lengths `lens[first..last]` in LZX's pretree-coded
/// delta/run encoding. A run that would write past the end of `lens` is
/// `Decrunched`.
fn read_lens(bits: &mut BitReader, lens: &mut Vec<u8>, first: usize, last: usize) -> (r: Result<(), LzxError>)
    requires
        reader_wf(*old(bits)),
    ensures
        reader_next(*old(bits), *final(bits)),
        final(lens)@.len() == old(lens)@.len(),
        r matches Err(e) ==> e != LzxError::Args,
        forall|i: int| 0 <= i < first && i < old(lens)@.len() ==> #[trigger] final(lens)@[i] == old(lens)@[i],
{
    let mut pretree_len: Vec<u8> = vec![0u8; PRETREE_NUM_ELEMENTS + LENTABLE_SAFETY];
    let mut k: usize = 0;
    while k < PRETREE_NUM_ELEMENTS
        invariant
            reader_next(*old(bits), *bits),
            pretree_len@.len() == PRETREE_NUM_ELEMENTS + LENTABLE_SAFETY,
            lens@.len() == old(lens)@.len(),
            lens@ == old(lens)@,
        decreases PRETREE_NUM_ELEMENTS - k,
    {
        let v = bits.read_bits(4)?;
        pretree_len.set(k, #[verifier::truncate] (v as u8));
        k = k + 1;
    }
    let mut pretree_table: Vec<u16> = Vec::new();
    if make_decode_table(PRETREE_NUM_ELEMENTS, PRETREE_TABLEBITS, &pretree_len, &mut pretree_table) {
        return Err(LzxError::Decrunched);
    }
    let mut x: usize = first;
    while x < last
        invariant
            reader_next(*old(bits), *bits),
            lens@.len() == old(lens)@.len(),
            first <= x,
            forall|i: int| 0 <= i < first && i < old(lens)@.len() ==> #[trigger] lens@[i] == old(lens)@[i],
        decreases lens@.len() - x,
    {
        let z = bits.read_huffsym(&pretree_table, PRETREE_NUM_ELEMENTS, PRETREE_TABLEBITS, &pretree_len)? as u32;
        if z == 17 || z == 18 || z == 19 {
            let count: u32;
            let mut value: u8 = 0;
            if z == 17 {
                count = bits.read_bits(4)? + 4;
            } else if z == 18 {
                count = bits.read_bits(5)? + 20;
            } else {
                count = bits.read_bits(1)? + 4;
                let zz = bits.read_huffsym(&pretree_table, PRETREE_NUM_ELEMENTS, PRETREE_TABLEBITS, &pretree_len)? as u32;
                if x >= lens.len() {
                    return Err(LzxError::Decrunched);
                }
                value = delta_len(lens[x], zz);
            }
            assert(count >= 4);
            let mut y: u32 = 0;
            let ghost x0 = x;
            while y < count
                invariant
                    reader_next(*old(bits), *bits),
                    x == x0 + y,
                    y <= count,
                    y > 0 ==> x <= lens@.len(),
                    lens@.len() == old(lens)@.len(),
                    first <= x,
                    forall|i: int| 0 <= i < first && i < old(lens)@.len() ==> #[trigger] lens@[i] == old(lens)@[i],
                decreases count - y,
            {
                if x >= lens.len() {
                    return Err(LzxError::Decrunched);
                }
                lens.set(x, value);
                x = x + 1;
                y = y + 1;
            }
        } else {
            if x >= lens.len() {
                return Err(LzxError::Decrunched);
            }
            let v = delta_len(lens[x], z);
            lens.set(x, v);
            x = x + 1;
        }
    }
    Ok(())
}

// ---------------------------------------------------------------------------
// Match copying
// ---------------------------------------------------------------------------

/// `n` bytes copied one by one from position `s` to position `d`, each read
/// after the previous write (so an overlapping source repeats bytes).
pub open spec fn lz_copy(w: Seq<u8>, s: int, d: int, n: nat) -> Seq<u8>
    decreases n,
{
    if n == 0 {
        w
    } else {
        lz_copy(w.update(d, w[s]), s + 1, d + 1, (n - 1) as nat)
    }
}

/// The window after a match of `len` bytes at `dst` whose source lies
/// `offset` bytes back, wrapping around the end of the window.
pub open spec fn spec_copy_match(w: Seq<u8>, dst: int, offset: int, len: int) -> Seq<u8> {
    if offset <= dst {
        lz_copy(w, dst - offset, dst, len as nat)
    } else {
        let j = offset - dst;
        if j < len {
            lz_copy(lz_copy(w, w.len() - j, dst, j as nat), 0, dst + j, (len - j) as nat)
        } else {
            lz_copy(w, w.len() - j, dst, len as nat)
        }
    }
}

/// A run copy changes only the positions `d..d + n`.
proof fn lemma_lz_copy_frame(w: Seq<u8>, s: int, d: int, n: nat)
    requires
        0 <= d,
        d + n <= w.len(),
    ensures
        lz_copy(w, s, d, n).len() == w.len(),
        forall|i: int| 0 <= i < w.len() && !(d <= i < d + n) ==> #[trigger] lz_copy(w, s, d, n)[i] == w[i],
    decreases n,
{
    if n > 0 {
        lemma_lz_copy_frame(w.update(d, w[s]), s + 1, d + 1, (n - 1) as nat);
    }
}

/// A match copy changes only the positions `dst..dst + len`.
proof fn lemma_lz_copy_back(w: Seq<u8>, s: int, d: int, n: nat)
    requires
        0 <= s < d,
        d + n <= w.len(),
    ensures
        lz_copy(w, s, d, n).len() == w.len(),
        forall|i: int| 0 <= i < n ==> #[trigger] lz_copy(w, s, d, n)[d + i] == lz_copy(w, s, d, n)[s + i],
        forall|j: int| 0 <= j < w.len() && !(d <= j < d + n) ==> #[trigger] lz_copy(w, s, d, n)[j] == w[j],
    decreases n,
{
    if n > 0 {
        let w1 = w.update(d, w[s]);
        lemma_lz_copy_back(w1, s + 1, d + 1, (n - 1) as nat);
        let r = lz_copy(w, s, d, n);
        assert(r == lz_copy(w1, s + 1, d + 1, (n - 1) as nat));
        assert forall|i: int| 0 <= i < n implies #[trigger] r[d + i] == r[s + i] by {
            if i == 0 {
                assert(r[d] == w1[d]);
                assert(r[s] == w1[s]);
            } else {
                assert(r[(d + 1) + (i - 1)] == r[(s + 1) + (i - 1)]);
            }
        }
    }
}

/// A match at offset `off` no further back than the write position copies
/// each byte from `off` bytes before it (a match longer than its offset
/// repeats the last `off` bytes), and leaves every byte outside
/// `[dst, dst + len)` as it was.
pub proof fn match_copies_from_distance(w: Seq<u8>, dst: int, off: int, len: int)
    requires
        1 <= off <= dst,
        0 <= len,
        dst + len <= w.len(),
    ensures
        spec_copy_match(w, dst, off, len).len() == w.len(),
        forall|i: int| 0 <= i < len ==> #[trigger] spec_copy_match(w, dst, off, len)[dst + i]
            == spec_copy_match(w, dst, off, len)[dst + i - off],
        forall|j: int| 0 <= j < w.len() && !(dst <= j < dst + len) ==> #[trigger] spec_copy_match(w, dst, off, len)[j] == w[j],
{
    lemma_lz_copy_back(w, dst - off, dst, len as nat);
    let r = spec_copy_match(w, dst, off, len);
    assert forall|i: int| 0 <= i < len implies #[trigger] r[dst + i] == r[dst + i - off] by {
        assert(r[dst + i] == r[(dst - off) + i]);
    }
}

proof fn lemma_copy_match_frame(w: Seq<u8>, dst: int, offset: int, len: int)
    requires
        0 <= dst,
        0 <= len,
        dst + len <= w.len(),
    ensures
        spec_copy_match(w, dst, offset, len).len() == w.len(),
        forall|i: int| 0 <= i < w.len() && !(dst <= i < dst + len) ==> #[trigger] spec_copy_match(w, dst, offset, len)[i] == w[i],
{
    if offset <= dst {
        lemma_lz_copy_frame(w, dst - offset, dst, len as nat);
    } else {
        let j = offset - dst;
        if j < len {
            lemma_lz_copy_frame(w, w.len() - j, dst, j as nat);
            lemma_lz_copy_frame(lz_copy(w, w.len() - j, dst, j as nat), 0, dst + j, (len - j) as nat);
        } else {
            lemma_lz_copy_frame(w, w.len() - j, dst, len as nat);
        }
    }
}

/// Copy `n` bytes from `s` to `d` in window order.
fn copy_run(window: &mut Vec<u8>, s: usize, d: usize, n: usize)
    requires
        s + n <= old(window)@.len(),
        d + n <= old(window)@.len(),
    ensures
        final(window)@ == lz_copy(old(window)@, s as int, d as int, n as nat),
        final(window)@.len() == old(window)@.len(),
{
    let mut k: usize = 0;
    while k < n
        invariant
            k <= n,
            s + n <= window.len(),
            d + n <= window.len(),
            window@.len() == old(window)@.len(),
            lz_copy(old(window)@, s as int, d as int, n as nat)
                == lz_copy(window@, (s + k) as int, (d + k) as int, (n - k) as nat),
        decreases n - k,
    {
        let b = window[s + k];
        window.set(d + k, b);
        k = k + 1;
    }
}

/// Copy a match of `len` bytes to `dst` from `offset` bytes back in the
/// ring window (LZ77 semantics). A source that would start before the
/// window is `Decrunched`.
fn copy_match(window: &mut Vec<u8>, dst: usize, offset: u32, len: usize) -> (r: Result<(), LzxError>)
    requires
        dst + len <= old(window)@.len(),
    ensures
        r is Ok ==> final(window)@ == spec_copy_match(old(window)@, dst as int, offset as int, len as int),
        final(window)@.len() == old(window)@.len(),
        r is Ok <==> (offset as int <= dst || offset as int - dst <= old(window)@.len()),
        r is Err ==> final(window)@ == old(window)@ && r == Err::<(), LzxError>(LzxError::Decrunched),
{
    let window_size = window.len();
    let off = offset as usize;
    if off <= dst {
        copy_run(window, dst - off, dst, len);
    } else {
        let j = off - dst;
        if j > window_size {
            return Err(LzxError::Decrunched);
        }
        let src = window_size - j;
        if j < len {
            copy_run(window, src, dst, j);
            copy_run(window, 0, dst + j, len - j);
        } else {
            copy_run(window, src, dst, len);
        }
    }
    Ok(())
}

/// The powers of two that bound the fields read from the stream.
proof fn lemma_small_shifts()
    by (bit_vector)
    ensures
        (1u64 << 1u32) == 2,
        (1u64 << 3u32) == 8,
        (1u64 << 4u32) == 16,
        (1u64 << 5u32) == 32,
        (1u64 << 8u32) == 256,
        (1u64 << 16u32) == 0x1_0000,
{
}

// ---------------------------------------------------------------------------
// Decoder state
// ---------------------------------------------------------------------------

const MIN_MATCH: usize = 2;
const NUM_CHARS: usize = 256;
const BLOCKTYPE_INVALID: u8 = 0;
const BLOCKTYPE_VERBATIM: u8 = 1;
const BLOCKTYPE_ALIGNED: u8 = 2;
const BLOCKTYPE_UNCOMPRESSED: u8 = 3;
const ALIGNED_NUM_ELEMENTS: usize = 8;
const NUM_PRIMARY_LENGTHS: usize = 7;
const NUM_SECONDARY_LENGTHS: usize = 249;
const MAINTREE_TABLEBITS: u32 = 12;
const LENGTH_TABLEBITS: u32 = 12;
const ALIGNED_TABLEBITS: u32 = 7;
const MAINTREE_MAXSYMBOLS: usize = 2576;
const LENGTH_MAXSYMBOLS: usize = 250;
const FRAME_SIZE: usize = 32768;

struct LzxState<'a> {
    bits: BitReader<'a>,
    output: Vec<u8>,
    window_size: usize,
    window: Vec<u8>,
    num_offsets: usize,
    window_posn: usize,
    frame_posn: usize,
    frame: usize,
    offset: usize,
    length: usize,
    r0: u32,
    r1: u32,
    r2: u32,
    block_length: usize,
    block_remaining: usize,
    block_type: u8,
    intel_filesize: i32,
    intel_curpos: i32,
    intel_started: bool,
    header_read: bool,
    maintree_len: Vec<u8>,
    length_len: Vec<u8>,
    aligned_len: Vec<u8>,
    length_empty: bool,
    maintree_table: Vec<u16>,
    length_table: Vec<u16>,
    aligned_table: Vec<u16>,
    e8_buf: Vec<u8>,
}

/// The result of decoding some of the stream: what it gave, a failure that
/// the decoder reports as an error, or a case these specifications leave
/// open (a Huffman code that would need more than 16 bits).
pub enum Outcome<T> {
    Done(T),
    Fail,
    Open,
}

/// The `n` bits at stream position `p` of reader `b0`, and the position after them.
pub open spec fn bits_at(b0: BitReader, p: int, n: u32) -> Outcome<(int, int)> {
    if bits_avail(b0) - p >= n { Outcome::Done((stream_val(b0, p, n as nat) as int, p + n)) } else { Outcome::Fail }
}

/// The Huffman symbol at stream position `p` (the decoder wants 16 bits
/// available), and the position after its code.
pub open spec fn sym_at(b0: BitReader, p: int, table: Seq<u16>, nsyms: int, tablebits: u32, len: Seq<u8>) -> Outcome<(int, int)> {
    if bits_avail(b0) - p < 16 {
        Outcome::Fail
    } else {
        match huff_lookup(table, nsyms, stream_val(b0, p, tablebits as nat) as int, stream_val(b0, p, 16) as u32, tablebits) {
            Some(s) => if s < len.len() && len[s] <= 16 { Outcome::Done((s, p + len[s])) } else { Outcome::Fail },
            None => Outcome::Open,
        }
    }
}

/// Where a compressed block stands: the window, the write position, what is
/// left of the run, the stream position, and the three repeated offsets.
pub struct BlockPos {
    pub window: Seq<u8>,
    pub wpos: int,
    pub remaining: int,
    pub p: int,
    pub r0: u32,
    pub r1: u32,
    pub r2: u32,
}

/// A match's offset from position slot `slot` (0..=2 reuse a repeated offset,
/// 3 is offset 1, others read a base plus extra bits; aligned blocks take
/// the low three bits from the aligned tree), with the stream position after
/// it and the repeated offsets it leaves.
spec fn spec_match_offset(st: LzxState, aligned: bool, b0: BitReader, p: int, slot: int, r0: u32, r1: u32, r2: u32)
    -> Outcome<(u32, int, u32, u32, u32)> {
    if slot == 0 {
        Outcome::Done((r0, p, r0, r1, r2))
    } else if slot == 1 {
        Outcome::Done((r1, p, r1, r0, r2))
    } else if slot == 2 {
        Outcome::Done((r2, p, r2, r1, r0))
    } else if slot == 3 {
        Outcome::Done((1, p, 1, r0, r1))
    } else {
        let extra = spec_extra_bits(slot);
        let base = spec_position_base(slot) - 2;
        if aligned {
            if extra > 3 {
                match bits_at(b0, p, (extra - 3) as u32) {
                    Outcome::Done((vb, p1)) => match sym_at(b0, p1, st.aligned_table@, ALIGNED_NUM_ELEMENTS as int, ALIGNED_TABLEBITS, st.aligned_len@) {
                        Outcome::Done((ab, p2)) => {
                            let mo = (base + vb * 8 + ab) as u32;
                            Outcome::Done((mo, p2, mo, r0, r1))
                        },
                        Outcome::Fail => Outcome::Fail,
                        Outcome::Open => Outcome::Open,
                    },
                    Outcome::Fail => Outcome::Fail,
                    Outcome::Open => Outcome::Open,
                }
            } else if extra == 3 {
                match sym_at(b0, p, st.aligned_table@, ALIGNED_NUM_ELEMENTS as int, ALIGNED_TABLEBITS, st.aligned_len@) {
                    Outcome::Done((ab, p2)) => {
                        let mo = (base + ab) as u32;
                        Outcome::Done((mo, p2, mo, r0, r1))
                    },
                    Outcome::Fail => Outcome::Fail,
                    Outcome::Open => Outcome::Open,
                }
            } else if extra > 0 {
                match bits_at(b0, p, extra) {
                    Outcome::Done((v, p1)) => {
                        let mo = (base + v) as u32;
                        Outcome::Done((mo, p1, mo, r0, r1))
                    },
                    Outcome::Fail => Outcome::Fail,
                    Outcome::Open => Outcome::Open,
                }
            } else {
                Outcome::Done((1, p, 1, r0, r1))
            }
        } else {
            match bits_at(b0, p, extra) {
                Outcome::Done((v, p1)) => {
                    let mo = ((base + v) % 0x1_0000_0000) as u32;
                    Outcome::Done((mo, p1, mo, r0, r1))
                },
                Outcome::Fail => Outcome::Fail,
                Outcome::Open => Outcome::Open,
            }
        }
    }
}

/// The repeated-offset queue: slot 0 reuses R0 and leaves the queue as it
/// is; slot 1 reuses R1 and swaps it with R0; slot 2 reuses R2 and swaps it
/// with R0; any other slot uses a new offset (1 for slot 3) that becomes R0,
/// pushing R0 and R1 down to R1 and R2. Slots 0..=3 read no bits.
proof fn repeated_offsets_law(st: LzxState, aligned: bool, b0: BitReader, p: int, slot: int, r0: u32, r1: u32, r2: u32)
    requires
        0 <= slot,
    ensures
        match spec_match_offset(st, aligned, b0, p, slot, r0, r1, r2) {
            Outcome::Done((off, p3, n0, n1, n2)) => {
                &&& slot == 0 ==> off == r0 && n0 == r0 && n1 == r1 && n2 == r2 && p3 == p
                &&& slot == 1 ==> off == r1 && n0 == r1 && n1 == r0 && n2 == r2 && p3 == p
                &&& slot == 2 ==> off == r2 && n0 == r2 && n1 == r1 && n2 == r0 && p3 == p
                &&& slot == 3 ==> off == 1 && p3 == p
                &&& slot >= 3 ==> n0 == off && n1 == r0 && n2 == r1
            },
            _ => slot >= 4,
        },
{
    let r = spec_match_offset(st, aligned, b0, p, slot, r0, r1, r2);
}

/// A slot from 4 up reads its offset from the stream: in a verbatim block
/// the next `extra_bits(slot)` bits added to the slot's base, less 2; in an
/// aligned block with more than 3 extra bits the upper bits come from the
/// stream and the low 3 from the aligned tree (`base - 2 + 8 * high + low`).
proof fn match_offset_from_slot_law(st: LzxState, aligned: bool, b0: BitReader, p: int, slot: int, r0: u32, r1: u32, r2: u32)
    requires
        4 <= slot < 290,
    ensures
        match spec_match_offset(st, aligned, b0, p, slot, r0, r1, r2) {
            Outcome::Done((off, p3, n0, n1, n2)) => {
                let extra = spec_extra_bits(slot);
                let base = spec_position_base(slot) - 2;
                &&& !aligned ==> p3 == p + extra && off as int
                    == (base + stream_val(b0, p, extra as nat)) % 0x1_0000_0000
                &&& (aligned && 0 < extra < 3) ==> p3 == p + extra && off as int == (base + stream_val(b0, p, extra as nat)) as u32
                &&& (aligned && extra > 3) ==> match sym_at(b0, p + (extra - 3), st.aligned_table@, ALIGNED_NUM_ELEMENTS as int, ALIGNED_TABLEBITS, st.aligned_len@) {
                    Outcome::Done((low, p2)) => p3 == p2 && off == (base + 8 * stream_val(b0, p, (extra - 3) as nat) + low) as u32,
                    _ => false,
                }
            },
            _ => true,
        },
{
}

/// A match of `ml` bytes at offset `off`, written at the block position.
spec fn spec_put_match(st: LzxState, bp: BlockPos, ml: int, off: u32, p: int, r0: u32, r1: u32, r2: u32) -> Outcome<BlockPos> {
    if bp.wpos + ml > st.window_size || !(off as int <= bp.wpos || off as int - bp.wpos <= bp.window.len()) {
        Outcome::Fail
    } else {
        Outcome::Done(BlockPos {
            window: spec_copy_match(bp.window, bp.wpos, off as int, ml),
            wpos: bp.wpos + ml,
            remaining: bp.remaining - ml,
            p,
            r0,
            r1,
            r2,
        })
    }
}

/// A match with main-tree symbol `m` (at least 256) read up to position `p1`.
spec fn spec_match(st: LzxState, aligned: bool, b0: BitReader, bp: BlockPos, m: int, p1: int) -> Outcome<BlockPos> {
    let me = m - 256;
    let slot = me / 8;
    let head = me % 8;
    let len_part: Outcome<(int, int)> = if head == 7 {
        if st.length_empty {
            Outcome::Fail
        } else {
            match sym_at(b0, p1, st.length_table@, LENGTH_MAXSYMBOLS as int, LENGTH_TABLEBITS, st.length_len@) {
                Outcome::Done((footer, p2)) => Outcome::Done((7 + footer + 2, p2)),
                Outcome::Fail => Outcome::Fail,
                Outcome::Open => Outcome::Open,
            }
        }
    } else {
        Outcome::Done((head + 2, p1))
    };
    match len_part {
        Outcome::Done((ml, p2)) => match spec_match_offset(st, aligned, b0, p2, slot, bp.r0, bp.r1, bp.r2) {
            Outcome::Done((off, p3, r0, r1, r2)) => spec_put_match(st, bp, ml, off, p3, r0, r1, r2),
            Outcome::Fail => Outcome::Fail,
            Outcome::Open => Outcome::Open,
        },
        Outcome::Fail => Outcome::Fail,
        Outcome::Open => Outcome::Open,
    }
}

/// One literal or match of a verbatim (or, with `aligned`, aligned) block,
/// decoded from the stream of `b0` at the block position.
spec fn spec_block_step(st: LzxState, aligned: bool, b0: BitReader, bp: BlockPos) -> Outcome<BlockPos> {
    match sym_at(b0, bp.p, st.maintree_table@, MAINTREE_MAXSYMBOLS as int, MAINTREE_TABLEBITS, st.maintree_len@) {
        Outcome::Done((m, p1)) => if m < 256 {
            if bp.wpos >= st.window_size {
                Outcome::Fail
            } else {
                Outcome::Done(BlockPos {
                    window: bp.window.update(bp.wpos, m as u8),
                    wpos: bp.wpos + 1,
                    remaining: bp.remaining - 1,
                    p: p1,
                    r0: bp.r0,
                    r1: bp.r1,
                    r2: bp.r2,
                })
            }
        } else {
            spec_match(st, aligned, b0, bp, m, p1)
        },
        Outcome::Fail => Outcome::Fail,
        Outcome::Open => Outcome::Open,
    }
}

/// A main-tree symbol below 256 is a literal: that byte is written at the
/// write position, which moves on by one, and the repeated offsets stay; a
/// symbol `m` from 256 up is a match whose length is `(m - 256) % 8 + 2`,
/// or when that field is 7 the length-tree symbol plus 9, and which writes
/// exactly that many bytes and leaves the window elsewhere unchanged.
proof fn block_step_law(st: LzxState, aligned: bool, b0: BitReader, bp: BlockPos)
    requires
        0 <= bp.wpos,
        bp.window.len() == st.window_size,
    ensures
        match sym_at(b0, bp.p, st.maintree_table@, MAINTREE_MAXSYMBOLS as int, MAINTREE_TABLEBITS, st.maintree_len@) {
            Outcome::Done((m, p1)) => m < 256 && bp.wpos < st.window_size ==> spec_block_step(st, aligned, b0, bp)
                == Outcome::Done(BlockPos {
                    window: bp.window.update(bp.wpos, m as u8),
                    wpos: bp.wpos + 1,
                    remaining: bp.remaining - 1,
                    p: p1,
                    r0: bp.r0,
                    r1: bp.r1,
                    r2: bp.r2,
                }),
            _ => true,
        },
        match sym_at(b0, bp.p, st.maintree_table@, MAINTREE_MAXSYMBOLS as int, MAINTREE_TABLEBITS, st.maintree_len@) {
            Outcome::Done((m, p1)) => m >= 256 ==> match spec_block_step(st, aligned, b0, bp) {
                Outcome::Done(nb) => {
                    let ml = nb.wpos - bp.wpos;
                    &&& ((m - 256) % 8 < 7 ==> ml == (m - 256) % 8 + 2)
                    &&& ((m - 256) % 8 == 7 ==> 9 <= ml)
                    &&& nb.remaining == bp.remaining - ml
                    &&& nb.window.len() == bp.window.len()
                    &&& forall|i: int| 0 <= i < bp.window.len() && !(bp.wpos <= i < nb.wpos) ==> #[trigger] nb.window[i] == bp.window[i]
                },
                _ => true,
            },
            _ => true,
        },
{
    match sym_at(b0, bp.p, st.maintree_table@, MAINTREE_MAXSYMBOLS as int, MAINTREE_TABLEBITS, st.maintree_len@) {
        Outcome::Done((m, p1)) => {
            if m >= 256 {
                match spec_block_step(st, aligned, b0, bp) {
                    Outcome::Done(nb) => {
                        let me = m - 256;
                        let head = me % 8;
                        let len_part: Outcome<(int, int)> = if head == 7 {
                            if st.length_empty {
                                Outcome::Fail
                            } else {
                                match sym_at(b0, p1, st.length_table@, LENGTH_MAXSYMBOLS as int, LENGTH_TABLEBITS, st.length_len@) {
                                    Outcome::Done((footer, p2)) => Outcome::Done((7 + footer + 2, p2)),
                                    Outcome::Fail => Outcome::Fail,
                                    Outcome::Open => Outcome::Open,
                                }
                            }
                        } else {
                            Outcome::Done((head + 2, p1))
                        };
                        match len_part {
                            Outcome::Done((ml, p2)) => {
                                match spec_match_offset(st, aligned, b0, p2, me / 8, bp.r0, bp.r1, bp.r2) {
                                    Outcome::Done((off, p3, r0, r1, r2)) => {
                                        if head == 7 {
                                            match sym_at(b0, p1, st.length_table@, LENGTH_MAXSYMBOLS as int, LENGTH_TABLEBITS, st.length_len@) {
                                                Outcome::Done((footer, p2x)) => {
                                                    lemma_sym_at_nonneg(b0, p1, st.length_table@, LENGTH_MAXSYMBOLS as int, LENGTH_TABLEBITS, st.length_len@);
                                                },
                                                _ => {},
                                            }
                                        }
                                        lemma_copy_match_frame(bp.window, bp.wpos, off as int, ml);
                                    },
                                    _ => {},
                                }
                            },
                            _ => {},
                        }
                    },
                    _ => {},
                }
            }
        },
        _ => {},
    }
}

/// Literals and matches decoded until the run is used up.
spec fn spec_block_run(st: LzxState, aligned: bool, b0: BitReader, bp: BlockPos) -> Outcome<BlockPos>
    decreases bp.remaining + 300,
{
    if bp.remaining <= 0 {
        Outcome::Done(bp)
    } else {
        match spec_block_step(st, aligned, b0, bp) {
            Outcome::Done(next) => if -260 <= next.remaining < bp.remaining {
                spec_block_run(st, aligned, b0, next)
            } else {
                Outcome::Open
            },
            Outcome::Fail => Outcome::Fail,
            Outcome::Open => Outcome::Open,
        }
    }
}

proof fn lemma_walk_range(table: Seq<u16>, nsyms: int, top: u32, sym: int, k: u32)
    requires
        0 <= sym <= 0xFFFF,
    ensures
        huff_walk(table, nsyms, top, sym, k) matches Some(s) ==> 0 <= s <= 0xFFFF && s < nsyms,
    decreases 16 - k,
{
    if sym >= nsyms && k < 16 {
        let j = sym * 2 + ((top >> ((15 - k) as u32)) & 1u32) as int;
        if 0 <= j < table.len() {
            lemma_walk_range(table, nsyms, top, table[j] as int, (k + 1) as u32);
        }
    }
}

proof fn lemma_sym_at_nonneg(b0: BitReader, p: int, table: Seq<u16>, nsyms: int, tablebits: u32, len: Seq<u8>)
    ensures
        sym_at(b0, p, table, nsyms, tablebits, len) matches Outcome::Done((s, p1)) ==> 0 <= s && p1 >= p,
{
    let idx = stream_val(b0, p, tablebits as nat) as int;
    if 0 <= idx < table.len() {
        lemma_walk_range(table, nsyms, stream_val(b0, p, 16) as u32, table[idx] as int, tablebits);
    }
}

/// What a Huffman read at the reader gives, seen at stream position `p`.
proof fn lemma_sym_read(
    cur: BitReader,
    b0: BitReader,
    p: int,
    table: Seq<u16>,
    nsyms: int,
    tablebits: u32,
    len: Seq<u8>,
    r: Result<u16, LzxError>,
    fin: BitReader,
)
    requires
        6 <= tablebits <= 12,
        0 <= p,
        len.len() <= 0xFFFF,
        forall|k: int| 0 <= k ==> sbit(cur, k) == #[trigger] sbit(b0, k + p),
        bits_avail(cur) == bits_avail(b0) - p,
        r matches Ok(sym) ==> (sym as int) < nsyms && (sym as int) < len.len() && len[sym as int] <= 16,
        r matches Ok(sym) ==> bits_avail(fin) == bits_avail(cur) - len[sym as int],
        r is Ok ==> bits_avail(cur) >= 16,
        r matches Ok(sym) ==> forall|k: int| 0 <= k ==> sbit(fin, k) == #[trigger] sbit(cur, k + len[sym as int]),
        huff_lookup(table, nsyms, stream_val(cur, 0, tablebits as nat) as int, stream_val(cur, 0, 16) as u32, tablebits)
            matches Some(s) ==> ((r is Ok <==> bits_avail(cur) >= 16 && s < len.len() && len[s] <= 16)
            && (r is Ok ==> r == Ok::<u16, LzxError>(s as u16))),
    ensures
        r is Err ==> !(sym_at(b0, p, table, nsyms, tablebits, len) is Done),
        r matches Ok(sym) ==> (sym_at(b0, p, table, nsyms, tablebits, len) is Open
            || sym_at(b0, p, table, nsyms, tablebits, len) == Outcome::<(int, int)>::Done((sym as int, p + len[sym as int]))),
        r matches Ok(sym) ==> bits_avail(fin) == bits_avail(b0) - (p + len[sym as int]),
        r matches Ok(sym) ==> forall|k: int| 0 <= k ==> sbit(fin, k) == #[trigger] sbit(b0, k + (p + len[sym as int])),
{
    lemma_stream_shift(cur, b0, p, tablebits as nat);
    lemma_stream_shift(cur, b0, p, 16);
    match r {
        Ok(sym) => {
            let lk = huff_lookup(table, nsyms, stream_val(b0, p, tablebits as nat) as int, stream_val(b0, p, 16) as u32, tablebits);
            assert(lk == huff_lookup(table, nsyms, stream_val(cur, 0, tablebits as nat) as int, stream_val(cur, 0, 16) as u32, tablebits));
            let idx = stream_val(b0, p, tablebits as nat) as int;
            if 0 <= idx < table.len() {
                lemma_walk_range(table, nsyms, stream_val(b0, p, 16) as u32, table[idx] as int, tablebits);
            }
            match lk {
                Some(s) => {
                    assert(r == Ok::<u16, LzxError>(s as u16));
                    assert(0 <= s < len.len());
                    assert(sym as int == s);
                    assert(bits_avail(b0) - p >= 16);
                    assert(sym_at(b0, p, table, nsyms, tablebits, len) == Outcome::<(int, int)>::Done((s, p + len[s])));
                },
                None => {},
            }
            let l = len[sym as int] as int;
            assert forall|k: int| 0 <= k implies sbit(fin, k) == #[trigger] sbit(b0, k + (p + l)) by {
                assert(sbit(fin, k) == sbit(cur, k + l));
                assert(sbit(cur, k + l) == sbit(b0, (k + l) + p));
                assert((k + l) + p == k + (p + l));
            }
        },
        Err(_) => {},
    }
}

/// What a plain bit read at the reader gives, seen at stream position `p`.
proof fn lemma_bits_read(cur: BitReader, b0: BitReader, p: int, n: u32, r: Result<u32, LzxError>, fin: BitReader)
    requires
        0 <= p,
        forall|k: int| 0 <= k ==> sbit(cur, k) == #[trigger] sbit(b0, k + p),
        bits_avail(cur) == bits_avail(b0) - p,
        r matches Ok(v) ==> v as nat == stream_val(cur, 0, n as nat),
        r is Ok <==> bits_avail(cur) >= n,
        r is Ok ==> bits_avail(fin) == bits_avail(cur) - n,
        r is Ok ==> forall|k: int| 0 <= k ==> sbit(fin, k) == #[trigger] sbit(cur, k + n),
    ensures
        r is Err ==> bits_at(b0, p, n) is Fail,
        r matches Ok(v) ==> bits_at(b0, p, n) == Outcome::<(int, int)>::Done((v as int, p + n)),
        r is Ok ==> bits_avail(fin) == bits_avail(b0) - (p + n),
        r is Ok ==> forall|k: int| 0 <= k ==> sbit(fin, k) == #[trigger] sbit(b0, k + (p + n)),
{
    lemma_stream_shift(cur, b0, p, n as nat);
    if r is Ok {
        assert forall|k: int| 0 <= k implies sbit(fin, k) == #[trigger] sbit(b0, k + (p + n)) by {
            assert(sbit(fin, k) == sbit(cur, k + n));
            assert(sbit(cur, k + n) == sbit(b0, (k + n) + p));
            assert((k + n) + p == k + (p + n));
        }
    }
}

/// The stream read as `a` bits then `c` more is the `a + c` bits read at once.
proof fn lemma_stream_concat(b: BitReader, k: int, a: nat, c: nat)
    ensures
        stream_val(b, k, a + c) == stream_val(b, k, a) * pow2(c) + stream_val(b, k + a, c),
    decreases c,
{
    if c == 0 {
        assert(pow2(0) == 1) by {
            lemma2_to64();
        }
        assert(a + c == a);
    } else {
        let c1 = (c - 1) as nat;
        lemma_stream_concat(b, k, a, c1);
        lemma_pow2_unfold(c);
        let sa = stream_val(b, k, a);
        let p1 = pow2(c1);
        assert(pow2(c) == 2 * p1);
        assert(sa * (2 * p1) == 2 * (sa * p1)) by (nonlinear_arith);
        assert(stream_val(b, k, a + c) == 2 * stream_val(b, k, (a + c1) as nat) + if sbit(b, k + (a + c) - 1) { 1nat } else { 0nat });
        assert(stream_val(b, k + a, c) == 2 * stream_val(b, k + a, c1) + if sbit(b, (k + a) + c - 1) { 1nat } else { 0nat });
        assert(k + (a + c) - 1 == (k + a) + c - 1);
    }
}

/// The reader a new block header is read from: after an odd-sized
/// uncompressed block, its padding byte is skipped first.
spec fn padded_reader(st: LzxState) -> BitReader {
    if st.block_type == BLOCKTYPE_UNCOMPRESSED && st.block_length % 2 != 0 {
        if st.bits.i_ptr >= st.bits.input@.len() {
            BitReader { eof_padded: true, ..st.bits }
        } else {
            BitReader { i_ptr: (st.bits.i_ptr + 1) as usize, ..st.bits }
        }
    } else {
        st.bits
    }
}

/// The block position built from its parts.
pub open spec fn block_pos(window: Seq<u8>, wpos: int, remaining: int, p: int, r0: u32, r1: u32, r2: u32) -> BlockPos {
    BlockPos { window, wpos, remaining, p, r0, r1, r2 }
}

/// Where a run of `run` bytes starts: the state's window and offsets, at
/// the start of its stream.
spec fn start_pos(st: LzxState, run: int) -> BlockPos {
    block_pos(st.window@, st.window_posn as int, run, 0, st.r0, st.r1, st.r2)
}

/// The state `fin` holds block position `bp` reached from `st`.
spec fn block_reached(st: LzxState, fin: LzxState, bp: BlockPos) -> bool {
    &&& fin.window@ == bp.window
    &&& fin.window_posn == bp.wpos
    &&& fin.r0 == bp.r0
    &&& fin.r1 == bp.r1
    &&& fin.r2 == bp.r2
    &&& bits_avail(fin.bits) == bits_avail(st.bits) - bp.p
    &&& forall|k: int| 0 <= k ==> sbit(fin.bits, k) == #[trigger] sbit(st.bits, k + bp.p)
}

/// The Huffman tables and code lengths are those of `st`.
spec fn same_tables(st: LzxState, now: LzxState) -> bool {
    &&& now.maintree_table@ == st.maintree_table@
    &&& now.maintree_len@ == st.maintree_len@
    &&& now.length_table@ == st.length_table@
    &&& now.length_len@ == st.length_len@
    &&& now.length_empty == st.length_empty
    &&& now.aligned_table@ == st.aligned_table@
    &&& now.aligned_len@ == st.aligned_len@
    &&& now.window_size == st.window_size
}

/// Values read at the reader are read at the matching stream position.
proof fn lemma_stream_shift(cur: BitReader, b0: BitReader, p: int, n: nat)
    requires
        forall|k: int| 0 <= k ==> sbit(cur, k) == #[trigger] sbit(b0, k + p),
    ensures
        stream_val(cur, 0, n) == stream_val(b0, p, n),
    decreases n,
{
    if n > 0 {
        lemma_stream_shift(cur, b0, p, (n - 1) as nat);
        assert(sbit(cur, n - 1) == sbit(b0, (n - 1) + p));
        assert(0 + n - 1 == n - 1);
        assert(p + n - 1 == (n - 1) + p);
    }
}

impl<'a> LzxState<'a> {
    /// Sizes and cursors are consistent.
    spec fn wf(self) -> bool {
        &&& reader_wf(self.bits)
        &&& self.window@.len() == self.window_size
        &&& self.window_size <= 0x20_0000
        &&& self.window_posn <= self.window_size
        &&& self.frame_posn <= self.window_size
        &&& self.num_offsets <= 400
        &&& self.maintree_len@.len() == MAINTREE_MAXSYMBOLS + LENTABLE_SAFETY
        &&& self.length_len@.len() == LENGTH_MAXSYMBOLS + LENTABLE_SAFETY
        &&& self.aligned_len@.len() == ALIGNED_NUM_ELEMENTS + LENTABLE_SAFETY
        &&& self.e8_buf@.len() == FRAME_SIZE
        &&& self.output@.len() == self.length
        &&& self.offset <= self.length
        &&& self.block_remaining < 0x100_0000
    }

    /// A step of decoding kept the state consistent, the output size, and
    /// consumed the stream forward.
    spec fn next(self, new: Self) -> bool {
        &&& new.wf()
        &&& reader_next(self.bits, new.bits)
        &&& new.length == self.length
        &&& new.offset == self.offset
        &&& new.frame == self.frame
        &&& new.frame_posn == self.frame_posn
    }

    /// Read the main and length tree code lengths (and build their tables)
    /// of a verbatim or aligned block.
    fn read_len_block(&mut self) -> (r: Result<(), LzxError>)
        requires
            old(self).wf(),
        ensures
            old(self).next(*final(self)),
            final(self).block_remaining == old(self).block_remaining,
            r matches Err(e) ==> e != LzxError::Args,
            final(self).block_type == old(self).block_type,
            final(self).block_length == old(self).block_length,
            r is Ok ==> decodable(final(self).maintree_len@, MAINTREE_MAXSYMBOLS as int, MAINTREE_TABLEBITS as nat),
            r is Ok ==> final(self).intel_started == (old(self).intel_started || final(self).maintree_len@[0xE8] != 0),
            r is Ok ==> (final(self).length_empty <==> forall|i: int| 0 <= i < LENGTH_MAXSYMBOLS ==> final(self).length_len@[i] == 0),
            r is Ok && !final(self).length_empty ==> decodable(final(self).length_len@, LENGTH_MAXSYMBOLS as int, LENGTH_TABLEBITS as nat),
    {
        let total_main = NUM_CHARS + self.num_offsets;
        read_lens(&mut self.bits, &mut self.maintree_len, 0, NUM_CHARS)?;
        read_lens(&mut self.bits, &mut self.maintree_len, NUM_CHARS, total_main)?;
        if self.maintree_len[0xE8] != 0 {
            self.intel_started = true;
        }
        if make_decode_table(MAINTREE_MAXSYMBOLS, MAINTREE_TABLEBITS, &self.maintree_len, &mut self.maintree_table) {
            return Err(LzxError::Decrunched);
        }
        read_lens(&mut self.bits, &mut self.length_len, 0, NUM_SECONDARY_LENGTHS)?;
        self.length_empty = false;
        if make_decode_table(LENGTH_MAXSYMBOLS, LENGTH_TABLEBITS, &self.length_len, &mut self.length_table) {
            let mut i: usize = 0;
            while i < LENGTH_MAXSYMBOLS
                invariant
                    self.wf(),
                    old(self).next(*self),
                    self.block_remaining == old(self).block_remaining,
                    decodable(self.maintree_len@, MAINTREE_MAXSYMBOLS as int, MAINTREE_TABLEBITS as nat),
                    self.intel_started == (old(self).intel_started || self.maintree_len@[0xE8] != 0),
                    self.block_type == old(self).block_type,
                    self.block_length == old(self).block_length,
                    i <= LENGTH_MAXSYMBOLS,
                    forall|j: int| 0 <= j < i ==> self.length_len@[j] == 0,
                decreases LENGTH_MAXSYMBOLS - i,
            {
                if self.length_len[i] > 0 {
                    return Err(LzxError::Decrunched);
                }
                i = i + 1;
            }
            self.length_empty = true;
        } else {
            proof {
                if forall|i: int| 0 <= i < LENGTH_MAXSYMBOLS ==> self.length_len@[i] == 0 {
                    lemma_kraft_zero(self.length_len@, LENGTH_MAXSYMBOLS as int, LENGTH_TABLEBITS as nat);
                    lemma_kraft_zero(self.length_len@, LENGTH_MAXSYMBOLS as int, 16);
                    lemma_pow2_pos(LENGTH_TABLEBITS as nat);
                    lemma_pow2_pos(16);
                }
            }
        }
        Ok(())
    }

    /// Start a block: realign after an odd-sized uncompressed block, read the
    /// block type and size, and whatever that type needs before its data.
    #[verifier::rlimit(50)]
    fn new_block(&mut self) -> (r: Result<(), LzxError>)
        requires
            old(self).wf(),
        ensures
            old(self).next(*final(self)),
            r is Ok ==> reader_measure(final(self).bits) < reader_measure(old(self).bits),
            r matches Err(e) ==> e != LzxError::Args,
            r is Ok ==> final(self).block_type as int == stream_val(padded_reader(*old(self)), 0, 3)
                && final(self).block_remaining as int == stream_val(padded_reader(*old(self)), 3, 24)
                && final(self).block_length == final(self).block_remaining,
            r is Ok ==> 1 <= final(self).block_type <= 3,
    {
        if self.block_type == BLOCKTYPE_UNCOMPRESSED && (self.block_length % 2) != 0 {
            if self.bits.i_ptr >= self.bits.input.len() {
                if self.bits.eof_padded {
                    return Err(LzxError::Read);
                }
                self.bits.eof_padded = true;
            } else {
                self.bits.i_ptr = self.bits.i_ptr + 1;
            }
        }
        let ghost q = self.bits;
        assert(q == padded_reader(*old(self)));
        let bt = self.bits.read_bits(3)?;
        self.block_type = #[verifier::truncate] (bt as u8);
        let ghost q1 = self.bits;
        let hi = self.bits.read_bits(16)?;
        let ghost q2 = self.bits;
        let lo = self.bits.read_bits(8)?;
        proof {
            lemma_small_shifts();
            lemma_stream_shift(q1, q, 3, 16);
            lemma_stream_shift(q2, q1, 16, 8);
            assert forall|k: int| 0 <= k implies sbit(q2, k) == #[trigger] sbit(q, k + 19) by {
                assert(sbit(q2, k) == sbit(q1, k + 16));
                assert(sbit(q1, k + 16) == sbit(q, (k + 16) + 3));
            }
            lemma_stream_shift(q2, q, 19, 8);
            lemma_stream_concat(q, 3, 16, 8);
            assert(pow2(8) == 256) by {
                lemma2_to64();
            }
            assert(3 + 16 == 19);
        }
        assert((hi << 8u32) | lo < 0x100_0000 && (hi << 8u32) | lo == hi * 256 + lo) by (bit_vector)
            requires
                hi < 0x1_0000,
                lo < 0x100,
        ;
        self.block_remaining = ((hi << 8) | lo) as usize;
        self.block_length = self.block_remaining;
        assert(self.block_type as int == stream_val(padded_reader(*old(self)), 0, 3));
        assert(self.block_remaining as int == stream_val(padded_reader(*old(self)), 3, 24));
        if self.block_type == BLOCKTYPE_ALIGNED {
            let mut i: usize = 0;
            while i < ALIGNED_NUM_ELEMENTS
                invariant
                    self.wf(),
                    old(self).next(*self),
                    reader_measure(self.bits) < reader_measure(old(self).bits),
                    self.block_type == BLOCKTYPE_ALIGNED,
                    self.block_type as int == stream_val(padded_reader(*old(self)), 0, 3),
                    self.block_remaining as int == stream_val(padded_reader(*old(self)), 3, 24),
                    self.block_length == self.block_remaining,
                decreases ALIGNED_NUM_ELEMENTS - i,
            {
                let v = self.bits.read_bits(3)?;
                self.aligned_len.set(i, #[verifier::truncate] (v as u8));
                i = i + 1;
            }
            if make_decode_table(ALIGNED_NUM_ELEMENTS, ALIGNED_TABLEBITS, &self.aligned_len, &mut self.aligned_table) {
                return Err(LzxError::Decrunched);
            }
            self.read_len_block()
        } else if self.block_type == BLOCKTYPE_VERBATIM {
            self.read_len_block()
        } else if self.block_type == BLOCKTYPE_UNCOMPRESSED {
            self.intel_started = true;
            if self.bits.bits_left == 0 {
                self.bits.ensure_bits(16)?;
            }
            self.bits.bits_left = 0;
            self.bits.bit_buffer = 0;
            proof {
                lemma_clean_empty();
            }
            let mut buf: [u32; 3] = [0u32; 3];
            let mut k: usize = 0;
            while k < 12
                invariant
                    self.wf(),
                    old(self).next(*self),
                    reader_measure(self.bits) < reader_measure(old(self).bits),
                    self.block_type == BLOCKTYPE_UNCOMPRESSED,
                    self.block_type as int == stream_val(padded_reader(*old(self)), 0, 3),
                    self.block_remaining as int == stream_val(padded_reader(*old(self)), 3, 24),
                    self.block_length == self.block_remaining,
                decreases 12 - k,
            {
                let v: u32;
                if self.bits.i_ptr < self.bits.input.len() {
                    v = self.bits.input[self.bits.i_ptr] as u32;
                    self.bits.i_ptr = self.bits.i_ptr + 1;
                } else {
                    if self.bits.eof_padded {
                        return Err(LzxError::Read);
                    }
                    self.bits.eof_padded = true;
                    v = 0;
                }
                let w = k / 4;
                let sh = (8 * (k % 4)) as u32;
                let cur = buf[w];
                buf.set(w, cur | (v << sh));
                k = k + 1;
            }
            self.r0 = buf[0];
            self.r1 = buf[1];
            self.r2 = buf[2];
            Ok(())
        } else {
            Err(LzxError::Decrunched)
        }
    }

    /// Read a match's offset for position slot `slot` and update the
    /// repeated offsets (see `spec_match_offset`).
    #[verifier::rlimit(100)]
    #[verifier::spinoff_prover]
    fn read_match_offset(
        &mut self,
        aligned: bool,
        slot: usize,
        Ghost(s0): Ghost<LzxState<'a>>,
        Ghost(b0): Ghost<BitReader<'a>>,
        Ghost(p): Ghost<int>,
    ) -> (r: Result<u32, LzxError>)
        requires
            old(self).wf(),
            slot < 290,
            same_tables(s0, *old(self)),
            0 <= p,
            bits_avail(old(self).bits) == bits_avail(b0) - p,
            forall|k: int| 0 <= k ==> sbit(old(self).bits, k) == #[trigger] sbit(b0, k + p),
        ensures
            old(self).next(*final(self)),
            final(self).block_remaining == old(self).block_remaining,
            final(self).window_posn == old(self).window_posn,
            final(self).window@ == old(self).window@,
            same_tables(s0, *final(self)),
            r matches Err(e) ==> e != LzxError::Args,
            r is Ok ==> p <= bits_avail(b0) - bits_avail(final(self).bits),
            r is Ok ==> forall|k: int| 0 <= k ==> sbit(final(self).bits, k) == #[trigger] sbit(b0, k + (bits_avail(b0) - bits_avail(final(self).bits))),
            match spec_match_offset(s0, aligned, b0, p, slot as int, old(self).r0, old(self).r1, old(self).r2) {
                Outcome::Done((off, p3, r0, r1, r2)) => r == Ok::<u32, LzxError>(off) && final(self).r0 == r0
                    && final(self).r1 == r1 && final(self).r2 == r2 && bits_avail(final(self).bits) == bits_avail(b0) - p3,
                Outcome::Fail => r is Err,
                Outcome::Open => true,
            },
    {
        let match_offset: u32;
        if slot == 0 {
            match_offset = self.r0;
        } else if slot == 1 {
            match_offset = self.r1;
            self.r1 = self.r0;
            self.r0 = match_offset;
        } else if slot == 2 {
            match_offset = self.r2;
            self.r2 = self.r0;
            self.r0 = match_offset;
        } else if slot == 3 {
            match_offset = 1;
            self.r2 = self.r1;
            self.r1 = self.r0;
            self.r0 = match_offset;
        } else {
            let extra = extra_bits(slot);
            let base = position_base(slot) - 2;
            let mo: u32;
            if aligned {
                if extra > 3 {
                    let ghost c3 = self.bits;
                    let rv = self.bits.read_bits(extra - 3);
                    proof {
                        lemma_bits_read(c3, b0, p, (extra - 3) as u32, rv, self.bits);
                    }
                    let vb = match rv {
                        Ok(v) => v,
                        Err(e) => {
                            return Err(e);
                        },
                    };
                    let ghost c4 = self.bits;
                    let ghost pv = p + (extra - 3);
                    let ra = self.bits.read_huffsym(
                        &self.aligned_table, ALIGNED_NUM_ELEMENTS, ALIGNED_TABLEBITS, &self.aligned_len,
                    );
                    proof {
                        lemma_sym_read(c4, b0, pv, s0.aligned_table@, ALIGNED_NUM_ELEMENTS as int, ALIGNED_TABLEBITS, s0.aligned_len@, ra, self.bits);
                    }
                    let ab = match ra {
                        Ok(v) => v as u32,
                        Err(e) => {
                            return Err(e);
                        },
                    };
                    mo = base + vb * 8 + ab;
                } else if extra == 3 {
                    let ghost c4 = self.bits;
                    let ra = self.bits.read_huffsym(
                        &self.aligned_table, ALIGNED_NUM_ELEMENTS, ALIGNED_TABLEBITS, &self.aligned_len,
                    );
                    proof {
                        lemma_sym_read(c4, b0, p, s0.aligned_table@, ALIGNED_NUM_ELEMENTS as int, ALIGNED_TABLEBITS, s0.aligned_len@, ra, self.bits);
                    }
                    let ab = match ra {
                        Ok(v) => v as u32,
                        Err(e) => {
                            return Err(e);
                        },
                    };
                    mo = base + ab;
                } else if extra > 0 {
                    let ghost c3 = self.bits;
                    let rv = self.bits.read_bits(extra);
                    proof {
                        lemma_bits_read(c3, b0, p, extra, rv, self.bits);
                    }
                    let v = match rv {
                        Ok(v) => v,
                        Err(e) => {
                            return Err(e);
                        },
                    };
                    mo = base + v;
                } else {
                    mo = 1;
                }
            } else {
                let ghost c3 = self.bits;
                let rv = self.bits.read_bits(extra);
                proof {
                    lemma_bits_read(c3, b0, p, extra, rv, self.bits);
                }
                let v = match rv {
                    Ok(v) => v,
                    Err(e) => {
                        return Err(e);
                    },
                };
                mo = base.wrapping_add(v);
            }
            self.r2 = self.r1;
            self.r1 = self.r0;
            self.r0 = mo;
            match_offset = mo;
        }
        Ok(match_offset)
    }

    /// Decode the rest of a match whose main-tree symbol is `main_element`
    /// (read up to stream position `p1`) and copy it into the window at
    /// `wpos`; returns its length (see `spec_match`).
    #[verifier::rlimit(100)]
    #[verifier::spinoff_prover]
    fn decode_match(
        &mut self,
        aligned: bool,
        main_element: usize,
        wpos: usize,
        Ghost(s0): Ghost<LzxState<'a>>,
        Ghost(b0): Ghost<BitReader<'a>>,
        Ghost(bp): Ghost<BlockPos>,
        Ghost(p1): Ghost<int>,
    ) -> (r: Result<usize, LzxError>)
        requires
            old(self).wf(),
            NUM_CHARS <= main_element < MAINTREE_MAXSYMBOLS,
            wpos <= old(self).window_size,
            same_tables(s0, *old(self)),
            0 <= p1,
            bits_avail(old(self).bits) == bits_avail(b0) - p1,
            forall|k: int| 0 <= k ==> sbit(old(self).bits, k) == #[trigger] sbit(b0, k + p1),
            bp.window == old(self).window@,
            bp.wpos == wpos,
            bp.r0 == old(self).r0,
            bp.r1 == old(self).r1,
            bp.r2 == old(self).r2,
        ensures
            old(self).next(*final(self)),
            final(self).block_remaining == old(self).block_remaining,
            final(self).window_posn == old(self).window_posn,
            same_tables(s0, *final(self)),
            r matches Err(e) ==> e != LzxError::Args,
            r matches Ok(ml) ==> 2 <= ml <= 258 && wpos + ml <= old(self).window_size,
            r matches Ok(ml) ==> forall|i: int| 0 <= i < old(self).window@.len() && !(wpos <= i < wpos + ml)
                ==> #[trigger] final(self).window@[i] == old(self).window@[i],
            r is Ok ==> p1 <= bits_avail(b0) - bits_avail(final(self).bits),
            r is Ok ==> forall|k: int| 0 <= k ==> sbit(final(self).bits, k) == #[trigger] sbit(b0, k + (bits_avail(b0) - bits_avail(final(self).bits))),
            match spec_match(s0, aligned, b0, bp, main_element as int, p1) {
                Outcome::Done(nb) => r == Ok::<usize, LzxError>((nb.wpos - wpos) as usize) && nb.remaining == bp.remaining - (nb.wpos - wpos)
                    && final(self).window@ == nb.window && final(self).r0 == nb.r0 && final(self).r1 == nb.r1
                    && final(self).r2 == nb.r2 && bits_avail(final(self).bits) == bits_avail(b0) - nb.p,
                Outcome::Fail => r is Err,
                Outcome::Open => true,
            },
    {
        let window_size = self.window_size;
        let me = main_element - NUM_CHARS;
        let mut match_length: usize = me % 8;
        let ghost mut p2: int = p1;
        if match_length == NUM_PRIMARY_LENGTHS {
            if self.length_empty {
                return Err(LzxError::Decrunched);
            }
            let ghost cur2 = self.bits;
            let rf = self.bits.read_huffsym(
                &self.length_table, LENGTH_MAXSYMBOLS, LENGTH_TABLEBITS, &self.length_len,
            );
            proof {
                lemma_sym_read(cur2, b0, p1, s0.length_table@, LENGTH_MAXSYMBOLS as int, LENGTH_TABLEBITS, s0.length_len@, rf, self.bits);
            }
            let footer = match rf {
                Ok(v) => v as usize,
                Err(e) => {
                    return Err(e);
                },
            };
            match_length = match_length + footer;
            proof {
                p2 = p1 + s0.length_len@[footer as int];
            }
        }
        match_length = match_length + MIN_MATCH;
        let slot = me / 8;
        let ro = self.read_match_offset(aligned, slot, Ghost(s0), Ghost(b0), Ghost(p2));
        let match_offset = match ro {
            Ok(o) => o,
            Err(e) => {
                return Err(e);
            },
        };
        if wpos + match_length > window_size {
            return Err(LzxError::Decrunched);
        }
        let ghost before = self.window@;
        match copy_match(&mut self.window, wpos, match_offset, match_length) {
            Ok(()) => {},
            Err(e) => {
                return Err(e);
            },
        }
        proof {
            lemma_copy_match_frame(before, wpos as int, match_offset as int, match_length as int);
        }
        Ok(match_length)
    }

    /// Decode literals and matches of a verbatim or aligned block into the
    /// window for `run` more bytes. Returns what is left of the run: zero, or
    /// below zero when the last match overshot it.
    /// On the stream, this is `spec_block_run` from the block position the
    /// state holds.
    #[verifier::rlimit(100)]
    #[verifier::spinoff_prover]
    fn decode_verbatim_or_aligned(&mut self, aligned: bool, run: i64) -> (r: Result<i64, LzxError>)
        requires
            old(self).wf(),
            0 <= run < 0x100_0000,
        ensures
            old(self).next(*final(self)),
            final(self).block_remaining == old(self).block_remaining,
            r matches Ok(left) ==> -260 <= left <= 0,
            r matches Err(e) ==> e != LzxError::Args,
            r matches Ok(left) ==> final(self).window_posn == old(self).window_posn + run - left,
            r is Ok ==> forall|i: int|
                0 <= i < old(self).window_posn || final(self).window_posn <= i < old(self).window@.len()
                    ==> #[trigger] final(self).window@[i] == old(self).window@[i],
            match spec_block_run(*old(self), aligned, old(self).bits, start_pos(*old(self), run as int)) {
                Outcome::Done(bp) => r == Ok::<i64, LzxError>(bp.remaining as i64) && block_reached(*old(self), *final(self), bp),
                Outcome::Fail => r is Err,
                Outcome::Open => true,
            },
    {
        let ghost s0 = *self;
        let ghost b0 = self.bits;
        let ghost res = spec_block_run(s0, aligned, b0, start_pos(s0, run as int));
        let ghost mut p: int = 0;
        let window_size = self.window_size;
        let mut wpos = self.window_posn;
        let mut remaining: i64 = run;
        proof {
            lemma_words_avail_nonneg(b0);
            assert(block_pos(self.window@, wpos as int, remaining as int, 0, self.r0, self.r1, self.r2) == start_pos(s0, run as int));
        }
        while remaining > 0
            invariant
                self.wf(),
                old(self).next(*self),
                self.block_remaining == old(self).block_remaining,
                self.window_posn == old(self).window_posn,
                window_size == self.window_size,
                wpos <= window_size,
                -260 <= remaining < 0x100_0000,
                remaining <= run,
                wpos == old(self).window_posn + run - remaining,
                forall|i: int| 0 <= i < old(self).window_posn || wpos <= i < self.window@.len()
                    ==> #[trigger] self.window@[i] == old(self).window@[i],
                s0 == *old(self),
                b0 == old(self).bits,
                same_tables(s0, *self),
                0 <= p,
                bits_avail(self.bits) == bits_avail(b0) - p,
                forall|k: int| 0 <= k ==> sbit(self.bits, k) == #[trigger] sbit(b0, k + p),
                res == spec_block_run(s0, aligned, b0, start_pos(s0, run as int)),
                res is Open || spec_block_run(
                    s0,
                    aligned,
                    b0,
                    block_pos(self.window@, wpos as int, remaining as int, p, self.r0, self.r1, self.r2),
                ) == res,
            decreases remaining + 300,
        {
            let ghost bp = block_pos(self.window@, wpos as int, remaining as int, p, self.r0, self.r1, self.r2);
            let ghost cur = self.bits;
            let rm = self.bits.read_huffsym(
                &self.maintree_table, MAINTREE_MAXSYMBOLS, MAINTREE_TABLEBITS, &self.maintree_len,
            );
            proof {
                lemma_sym_read(cur, b0, p, s0.maintree_table@, MAINTREE_MAXSYMBOLS as int, MAINTREE_TABLEBITS, s0.maintree_len@, rm, self.bits);
            }
            let main_element = match rm {
                Ok(v) => v as usize,
                Err(e) => {
                    proof {
                        assert(!(spec_block_step(s0, aligned, b0, bp) is Done));
                    }
                    return Err(e);
                },
            };
            let ghost sa = sym_at(b0, p, s0.maintree_table@, MAINTREE_MAXSYMBOLS as int, MAINTREE_TABLEBITS, s0.maintree_len@);
            let ghost p1 = p + s0.maintree_len@[main_element as int];
            proof {
                if sa is Open {
                    assert(spec_block_step(s0, aligned, b0, bp) is Open);
                }
            }
            if main_element < NUM_CHARS {
                if wpos >= window_size {
                    return Err(LzxError::Decrunched);
                }
                self.window.set(wpos, main_element as u8);
                wpos = wpos + 1;
                remaining = remaining - 1;
                proof {
                    p = p1;
                    let nb = block_pos(self.window@, wpos as int, remaining as int, p, self.r0, self.r1, self.r2);
                    if sa is Done {
                        assert(spec_block_step(s0, aligned, b0, bp) == Outcome::Done(nb));
                    }
                }
            } else {
                let rmatch = self.decode_match(aligned, main_element, wpos, Ghost(s0), Ghost(b0), Ghost(bp), Ghost(p1));
                let match_length = match rmatch {
                    Ok(ml) => ml,
                    Err(e) => {
                        proof {
                            if sa is Done {
                                assert(spec_block_step(s0, aligned, b0, bp) == spec_match(s0, aligned, b0, bp, main_element as int, p1));
                            }
                        }
                        return Err(e);
                    },
                };
                proof {
                    if sa is Done {
                        assert(spec_block_step(s0, aligned, b0, bp) == spec_match(s0, aligned, b0, bp, main_element as int, p1));
                    }
                }
                wpos = wpos + match_length;
                remaining = remaining - match_length as i64;
                proof {
                    p = bits_avail(b0) - bits_avail(self.bits);
                }
            }
        }
        self.window_posn = wpos;
        Ok(remaining)
    }

    /// Copy `run` stored bytes of an uncompressed block straight from the
    /// input into the window (past the end of the input, one zero byte is
    /// supplied once; a second overrun is `Read`).
    #[verifier::rlimit(60)]
    fn decode_uncompressed(&mut self, run: usize) -> (r: Result<(), LzxError>)
        requires
            old(self).wf(),
        ensures
            old(self).next(*final(self)),
            final(self).block_remaining == old(self).block_remaining,
            r matches Err(e) ==> e != LzxError::Args,
            r is Ok <==> run <= old(self).window_size - old(self).window_posn
                && run <= stored_bytes(old(self).bits).len(),
            run > old(self).window_size - old(self).window_posn ==> r == Err::<(), LzxError>(LzxError::Decrunched),
            run <= old(self).window_size - old(self).window_posn && r is Err ==> r == Err::<(), LzxError>(LzxError::Read),
            r is Ok ==> final(self).window@ == old(self).window@.take(old(self).window_posn as int)
                + stored_bytes(old(self).bits).take(run as int)
                + old(self).window@.skip(old(self).window_posn + run),
            r is Ok ==> final(self).window_posn == old(self).window_posn + run,
            r is Ok ==> stored_bytes(final(self).bits) == stored_bytes(old(self).bits).skip(run as int),
    {
        let mut left = run;
        let mut dst = self.window_posn;
        if run > self.window.len() - dst {
            return Err(LzxError::Decrunched);
        }
        let ghost src0 = stored_bytes(self.bits);
        let ghost w0 = self.window@;
        let ghost p0 = self.window_posn as int;
        while left > 0
            invariant
                self.wf(),
                old(self).next(*self),
                self.block_remaining == old(self).block_remaining,
                self.window_posn == old(self).window_posn,
                dst + left <= self.window_size,
                src0 == stored_bytes(old(self).bits),
                w0 == old(self).window@,
                p0 == old(self).window_posn,
                run <= old(self).window_size - old(self).window_posn,
                left <= run,
                dst == p0 + (run - left),
                run - left <= src0.len(),
                stored_bytes(self.bits) == src0.skip(run - left),
                self.window@.len() == w0.len(),
                forall|i: int| 0 <= i < self.window@.len() ==> self.window@[i] == if p0 <= i < dst { src0[i - p0] } else { w0[i] },
            decreases left,
        {
            let src = self.bits.i_ptr;
            let len = self.bits.input.len();
            let ghost rest = stored_bytes(self.bits);
            if src >= len {
                if self.bits.eof_padded {
                    return Err(LzxError::Read);
                }
                self.bits.eof_padded = true;
                self.window.set(dst, 0);
                self.bits.i_ptr = self.bits.i_ptr + 1;
                proof {
                    assert(rest =~= seq![0u8]);
                    assert(src0[(run - left) as int] == rest[0]);
                    assert(stored_bytes(self.bits) =~= src0.skip(run - left + 1));
                }
                dst = dst + 1;
                left = left - 1;
            } else {
                let avail = len - src;
                let n = if avail < left { avail } else { left };
                let mut k: usize = 0;
                while k < n
                    invariant
                        self.wf(),
                        old(self).next(*self),
                        self.block_remaining == old(self).block_remaining,
                        self.window_posn == old(self).window_posn,
                        self.bits.i_ptr == src,
                        src + n <= self.bits.input@.len(),
                        len == self.bits.input@.len(),
                        dst + n <= self.window_size,
                        dst + left <= self.window_size,
                        n <= left,
                        k <= n,
                        rest == stored_bytes(self.bits),
                        rest == src0.skip(run - left),
                        left <= run,
                        dst == p0 + (run - left),
                        run - left <= src0.len(),
                        self.window@.len() == w0.len(),
                        forall|i: int| 0 <= i < self.window@.len() ==> self.window@[i] == if p0 <= i < dst + k {
                            if i < dst { src0[i - p0] } else { rest[i - dst] }
                        } else {
                            w0[i]
                        },
                    decreases n - k,
                {
                    let b = self.bits.input[src + k];
                    assert(rest[k as int] == self.bits.input@.subrange(src as int, len as int)[k as int]);
                    self.window.set(dst + k, b);
                    k = k + 1;
                }
                self.bits.i_ptr = src + n;
                proof {
                    assert(stored_bytes(self.bits) =~= rest.skip(n as int));
                    assert(src0.skip(run - left + n) =~= rest.skip(n as int));
                }
                dst = dst + n;
                left = left - n;
            }
        }
        self.window_posn = dst;
        proof {
            assert(self.window@ =~= w0.take(p0) + src0.take(run as int) + w0.skip(p0 + run));
        }
        Ok(())
    }

    /// Whether the Intel `E8` call transform applies to the current frame.
    spec fn uses_e8(self, frame_size: usize) -> bool {
        self.intel_started && self.intel_filesize != 0 && self.frame <= 32768 && frame_size > 10
    }

    /// Copy the current frame of the window to the output at `offset`,
    /// turning `E8` call targets back into relative offsets when the stream
    /// asked for it, and
    /// move the window cursors on (wrapping at the end of the window). A
    /// frame that would run past the window is `Decrunched`.
    fn emit_frame(&mut self, frame_size: usize) -> (r: Result<(), LzxError>)
        requires
            old(self).wf(),
            frame_size <= FRAME_SIZE,
            old(self).offset + frame_size <= old(self).length,
        ensures
            final(self).wf(),
            final(self).bits == old(self).bits,
            final(self).length == old(self).length,
            final(self).offset == old(self).offset,
            final(self).frame == old(self).frame,
            final(self).block_remaining == old(self).block_remaining,
            r matches Err(e) ==> e != LzxError::Args,
            r is Ok ==> old(self).frame_posn + frame_size <= old(self).window_size,
            r is Ok && !old(self).uses_e8(frame_size) ==> final(self).output@ == old(self).output@.subrange(0, old(self).offset as int)
                + old(self).window@.subrange(old(self).frame_posn as int, old(self).frame_posn + frame_size)
                + old(self).output@.subrange(old(self).offset + frame_size, old(self).length as int),
    {
        let out_start = self.offset;
        let window_start = self.frame_posn;
        if frame_size > self.window.len() - window_start {
            return Err(LzxError::Decrunched);
        }
        let use_e8 = self.intel_started && self.intel_filesize != 0 && self.frame <= 32768 && frame_size > 10;
        if use_e8 {
            let mut k: usize = 0;
            while k < frame_size
                invariant
                    self.wf(),
                    self.bits == old(self).bits,
                    self.length == old(self).length,
                    self.offset == old(self).offset,
                    self.frame == old(self).frame,
                    self.frame_posn == old(self).frame_posn,
                    self.block_remaining == old(self).block_remaining,
                    window_start == self.frame_posn,
                    window_start + frame_size <= self.window_size,
                    frame_size <= FRAME_SIZE,
                    k <= frame_size,
                decreases frame_size - k,
            {
                let b = self.window[window_start + k];
                self.e8_buf.set(k, b);
                k = k + 1;
            }
            let dataend = frame_size - 10;
            let mut data: usize = 0;
            let start_pos: i64 = self.intel_curpos as i64;
            let mut curpos: i64 = start_pos;
            let filesize: i64 = self.intel_filesize as i64;
            while data < dataend
                invariant
                    self.wf(),
                    self.bits == old(self).bits,
                    self.length == old(self).length,
                    self.offset == old(self).offset,
                    self.frame == old(self).frame,
                    self.frame_posn == old(self).frame_posn,
                    self.block_remaining == old(self).block_remaining,
                    dataend + 10 == frame_size,
                    window_start == self.frame_posn,
                    window_start + frame_size <= self.window_size,
                    frame_size <= FRAME_SIZE,
                    data <= dataend + 4,
                    curpos == start_pos + data,
                    -0x8000_0000 <= start_pos < 0x8000_0000,
                    -0x8000_0000 <= filesize < 0x8000_0000,
                decreases dataend + 4 - data,
            {
                if self.e8_buf[data] != 0xE8 {
                    data = data + 1;
                    curpos = curpos + 1;
                } else {
                    let p = data + 1;
                    let a0 = self.e8_buf[p] as u32;
                    let a1 = self.e8_buf[p + 1] as u32;
                    let a2 = self.e8_buf[p + 2] as u32;
                    let a3 = self.e8_buf[p + 3] as u32;
                    let aoff: i64 = (a0 | (a1 << 8) | (a2 << 16) | (a3 << 24)) as i64;
                    if aoff >= -curpos && aoff < filesize {
                        let rel: i64 = if aoff >= 0 { aoff - curpos } else { aoff + filesize };
                        let u: u32 = #[verifier::truncate] (rel as u32);
                        self.e8_buf.set(p, #[verifier::truncate] ((u & 0xFF) as u8));
                        self.e8_buf.set(p + 1, #[verifier::truncate] (((u >> 8) & 0xFF) as u8));
                        self.e8_buf.set(p + 2, #[verifier::truncate] (((u >> 16) & 0xFF) as u8));
                        self.e8_buf.set(p + 3, #[verifier::truncate] (((u >> 24) & 0xFF) as u8));
                    }
                    data = p + 4;
                    curpos = curpos + 5;
                }
            }
            self.intel_curpos = self.intel_curpos.wrapping_add(frame_size as i32);
            let mut k: usize = 0;
            while k < frame_size
                invariant
                    self.wf(),
                    self.bits == old(self).bits,
                    self.length == old(self).length,
                    self.offset == old(self).offset,
                    self.frame == old(self).frame,
                    self.frame_posn == old(self).frame_posn,
                    self.block_remaining == old(self).block_remaining,
                    out_start == self.offset,
                    out_start + frame_size <= self.length,
                    window_start == self.frame_posn,
                    window_start + frame_size <= self.window_size,
                    frame_size <= FRAME_SIZE,
                    k <= frame_size,
                decreases frame_size - k,
            {
                let b = self.e8_buf[k];
                self.output.set(out_start + k, b);
                k = k + 1;
            }
        } else {
            let mut k: usize = 0;
            while k < frame_size
                invariant
                    self.wf(),
                    self.bits == old(self).bits,
                    self.length == old(self).length,
                    self.offset == old(self).offset,
                    self.frame == old(self).frame,
                    self.frame_posn == old(self).frame_posn,
                    self.window == old(self).window,
                    self.block_remaining == old(self).block_remaining,
                    out_start == self.offset,
                    window_start == self.frame_posn,
                    out_start + frame_size <= self.length,
                    window_start + frame_size <= self.window_size,
                    k <= frame_size,
                    forall|i: int| 0 <= i < self.length && !(out_start <= i < out_start + k)
                        ==> self.output@[i] == old(self).output@[i],
                    forall|i: int| out_start <= i < out_start + k
                        ==> self.output@[i] == old(self).window@[window_start + i - out_start],
                decreases frame_size - k,
            {
                let b = self.window[window_start + k];
                self.output.set(out_start + k, b);
                k = k + 1;
            }
            assert(self.output@ =~= old(self).output@.subrange(0, out_start as int)
                + old(self).window@.subrange(window_start as int, window_start + frame_size)
                + old(self).output@.subrange(out_start + frame_size, self.length as int));
            if self.intel_filesize != 0 {
                self.intel_curpos = self.intel_curpos.wrapping_add(frame_size as i32);
            }
        }
        if self.window_posn == self.window_size {
            self.window_posn = 0;
        }
        self.frame_posn = self.frame_posn + frame_size;
        if self.frame_posn == self.window_size {
            self.frame_posn = 0;
        }
        Ok(())
    }
}

/// Decode frames until `length` bytes of output are there.
fn run_decompress(state: LzxState) -> (r: Result<Vec<u8>, LzxError>)
    requires
        state.wf(),
        state.offset == 0,
    ensures
        r matches Ok(v) ==> v@.len() == state.length,
        r matches Err(e) ==> e != LzxError::Args,
        state.length == 0 ==> r is Ok,
{
    let mut st = state;
    let out_len = st.length;
    if out_len == 0 {
        return Ok(st.output);
    }
    let end_frame = st.offset / FRAME_SIZE + out_len / FRAME_SIZE + 1;
    while st.frame < end_frame
        invariant
            st.wf(),
            st.length == out_len,
            state.length == out_len,
            out_len > 0,
        decreases end_frame - st.frame,
    {
        if !st.header_read {
            let one = st.bits.read_bits(1)?;
            let mut h: u32 = 0;
            if one != 0 {
                let hi = st.bits.read_bits(16)?;
                let lo = st.bits.read_bits(16)?;
                h = (hi << 16) | lo;
            }
            st.intel_filesize = #[verifier::truncate] (h as i32);
            st.header_read = true;
        }
        let mut frame_size = FRAME_SIZE;
        if st.length - st.offset < frame_size {
            frame_size = st.length - st.offset;
        }
        if frame_size == 0 {
            break;
        }
        if st.window_posn > st.frame_posn + frame_size {
            return Err(LzxError::Decrunched);
        }
        let mut bytes_todo = st.frame_posn + frame_size - st.window_posn;
        let ghost frame0 = st.frame;
        while bytes_todo > 0
            invariant
                st.wf(),
                st.frame == frame0,
                st.length == out_len,
                state.length == out_len,
                out_len > 0,
                st.offset + frame_size <= st.length,
                frame_size <= FRAME_SIZE,
                st.frame < end_frame,
            decreases bytes_todo, reader_measure(st.bits),
        {
            let ghost before = st;
            if st.block_remaining == 0 {
                st.new_block()?;
            }
            let run = if st.block_remaining < bytes_todo { st.block_remaining } else { bytes_todo };
            bytes_todo = bytes_todo - run;
            st.block_remaining = st.block_remaining - run;
            let mut this_run: i64 = run as i64;
            if st.block_type == BLOCKTYPE_VERBATIM || st.block_type == BLOCKTYPE_ALIGNED {
                let aligned = st.block_type == BLOCKTYPE_ALIGNED;
                this_run = st.decode_verbatim_or_aligned(aligned, this_run)?;
            } else if st.block_type == BLOCKTYPE_UNCOMPRESSED {
                st.decode_uncompressed(run)?;
                this_run = 0;
            } else {
                return Err(LzxError::Decrunched);
            }
            if this_run < 0 {
                let over = (-this_run) as usize;
                if over > st.block_remaining {
                    return Err(LzxError::Decrunched);
                }
                st.block_remaining = st.block_remaining - over;
            }
            assert(run > 0 || reader_measure(st.bits) < reader_measure(before.bits));
        }
        if st.window_posn < st.frame_posn || st.window_posn - st.frame_posn != frame_size {
            return Err(LzxError::Decrunched);
        }
        if st.bits.bits_left > 0 {
            st.bits.ensure_bits(16)?;
        }
        let left = st.bits.bits_left;
        let rem = left & 15;
        assert(left & 15u32 <= left && left & 15u32 <= 15) by (bit_vector);
        if rem != 0 {
            st.bits.remove_bits(rem);
        }
        st.emit_frame(frame_size)?;
        st.offset = st.offset + frame_size;
        st.frame = st.frame + 1;
        if st.offset >= out_len {
            break;
        }
    }
    if st.offset < out_len {
        return Err(LzxError::Decrunched);
    }
    Ok(st.output)
}

/// Window sizes LZX supports: `2^15` to `2^21` bytes.
pub open spec fn valid_window_size(window_size: u32) -> bool {
    window_size == 0x8000 || window_size == 0x1_0000 || window_size == 0x2_0000
        || window_size == 0x4_0000 || window_size == 0x8_0000 || window_size == 0x10_0000
        || window_size == 0x20_0000
}

/// Decompress an LZX stream (XEX flavour: no reset interval, no reference
/// data) with a window of `window_size` bytes into exactly `output_length`
/// bytes. A window size other than a power of two from `2^15` to `2^21` is
/// `Args`; a stream that cannot be decoded is `Decrunched` or `Read`.
pub fn lzx_decompress(input: &[u8], window_size: u32, output_length: usize) -> (r: Result<Vec<u8>, LzxError>)
    requires
        input@.len() < usize::MAX,
    ensures
        r == Err::<Vec<u8>, LzxError>(LzxError::Args) <==> !valid_window_size(window_size),
        r matches Ok(v) ==> v@.len() == output_length,
        valid_window_size(window_size) && output_length == 0 ==> (r matches Ok(v) && v@.len() == 0),
{
    let window_bits: u32;
    if window_size == 0x8000 {
        window_bits = 15;
    } else if window_size == 0x1_0000 {
        window_bits = 16;
    } else if window_size == 0x2_0000 {
        window_bits = 17;
    } else if window_size == 0x4_0000 {
        window_bits = 18;
    } else if window_size == 0x8_0000 {
        window_bits = 19;
    } else if window_size == 0x10_0000 {
        window_bits = 20;
    } else if window_size == 0x20_0000 {
        window_bits = 21;
    } else {
        return Err(LzxError::Args);
    }
    let num_offsets = position_slots(window_bits) * 8;
    let st = LzxState {
        bits: BitReader::new(input),
        output: vec![0u8; output_length],
        window_size: window_size as usize,
        window: vec![0u8; window_size as usize],
        num_offsets,
        window_posn: 0,
        frame_posn: 0,
        frame: 0,
        offset: 0,
        length: output_length,
        r0: 1,
        r1: 1,
        r2: 1,
        block_length: 0,
        block_remaining: 0,
        block_type: BLOCKTYPE_INVALID,
        intel_filesize: 0,
        intel_curpos: 0,
        intel_started: false,
        header_read: false,
        maintree_len: vec![0u8; MAINTREE_MAXSYMBOLS + LENTABLE_SAFETY],
        length_len: vec![0u8; LENGTH_MAXSYMBOLS + LENTABLE_SAFETY],
        aligned_len: vec![0u8; ALIGNED_NUM_ELEMENTS + LENTABLE_SAFETY],
        length_empty: false,
        maintree_table: Vec::new(),
        length_table: Vec::new(),
        aligned_table: Vec::new(),
        e8_buf: vec![0u8; FRAME_SIZE],
    };
    run_decompress(st)
}

} // verus!
