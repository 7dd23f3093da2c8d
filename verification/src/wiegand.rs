//! Wiegand signal decoder core.
//!
//! A reader transmits data as pulses on two lines; a frame is a burst of
//! bits bounded by line inactivity.  The capture state folds one bit per
//! qualifying transition into a fixed-capacity buffer; when the inactivity
//! timer fires, the captured bits are classified into a [`Packet`].
//!
//! The captured bits are modelled as an integer: after pushing bits
//! `b0, b1, ..., b{k-1}` (in arrival order) the buffer value is the k-bit
//! number with `b0` as its most significant bit, exactly the value the
//! device reads back out of its four capture bytes.
use vstd::arithmetic::div_mod::{
    lemma_div_denominator, lemma_fundamental_div_mod, lemma_fundamental_div_mod_converse,
    lemma_hoist_over_denominator, lemma_mod_division_less_than_divisor, lemma_mod_multiples_vanish,
    lemma_multiply_divide_lt, lemma_small_mod,
};
use vstd::arithmetic::power2::{
    lemma2_to64, lemma_pow2_adds, lemma_pow2_strictly_increases, lemma_pow2_unfold, pow2,
};
use vstd::prelude::*;

verus! {

/// Capacity of the capture buffer in bits (four bytes).
pub const CAPTURE_CAPACITY: u32 = 32;

/// Inactivity window that ends a frame, in microseconds.
pub const FRAME_TIMEOUT_US: u64 = 50000;

/// Frame length of a single keypad digit.
pub const KEY_FRAME_BITS: u32 = 4;

/// Frame length of a card tap in the 26-bit format.
pub const CARD_FRAME_BITS: u32 = 26;

/// Number of ones among the `n` low-order binary digits of `v`.
pub open spec fn count_low_bits(v: nat, n: nat) -> nat
    decreases n,
{
    if n == 0 {
        0
    } else {
        (v % 2) + count_low_bits(v / 2, (n - 1) as nat)
    }
}

/// The trailing parity bit covers the 13 low-order bits of the frame
/// (itself included): their number of ones must be odd.
pub open spec fn odd_parity_ok(v: nat) -> bool {
    count_low_bits(v, 13) % 2 == 1
}

/// The leading parity bit covers the 13 high-order bits of the frame
/// (itself included): their number of ones must be even.
pub open spec fn even_parity_ok(v: nat) -> bool {
    count_low_bits(v / pow2(13), 13) % 2 == 0
}

/// Validity of a 26-bit card frame under the two parity checks.
pub open spec fn parity_ok_26(v: nat) -> bool {
    odd_parity_ok(v) && even_parity_ok(v)
}

/// The card id carried by a 26-bit frame: the 24 bits strictly between
/// the leading and the trailing parity bit.
pub open spec fn card_id(frame: nat) -> nat {
    (frame % pow2(25)) / 2
}

/// A frame read from the Wiegand interface: a key press, a card tap, or
/// unclassified bits.
#[derive(Clone, Copy, Debug, PartialEq, Eq, Structural)]
pub enum Packet {
    Key { key: u8 },
    Card { rfid: i32 },
    Unknown { bits: u32, data: u32 },
}

impl Packet {
    /// A packet the decoder can produce: a key press carries a 4-bit
    /// digit.
    pub open spec fn wf(self) -> bool {
        match self {
            Packet::Key { key } => key < 16,
            _ => true,
        }
    }

    /// What classification returns for a captured frame of `bits` bits
    /// whose value is `data`.
    pub open spec fn classify(bits: u32, data: u32) -> Packet {
        if bits == KEY_FRAME_BITS {
            Packet::Key { key: data as u8 }
        } else if bits == CARD_FRAME_BITS {
            if parity_ok_26(data as nat) {
                Packet::Card { rfid: card_id(data as nat) as i32 }
            } else {
                Packet::Unknown { bits, data }
            }
        } else {
            Packet::Unknown { bits, data }
        }
    }

    /// Classifies a completed frame.
    ///
    /// A 4-bit frame is a keypad digit: the four captured bits, which the
    /// device stores in the top nibble of its first capture byte.  A
    /// 26-bit frame that passes both parity checks is a card tap carrying
    /// a 24-bit id.  Everything else, including a 26-bit frame failing
    /// parity, is surfaced unclassified.
    pub fn new(bits: u32, data: u32) -> (packet: Packet)
        requires
            bits <= CAPTURE_CAPACITY,
            (data as nat) < pow2(bits as nat),
        ensures
            packet == Packet::classify(bits, data),
            packet.wf(),
    {
        if bits == KEY_FRAME_BITS {
            proof {
                lemma2_to64();
            }
            Packet::Key { key: data as u8 }
        } else if bits == CARD_FRAME_BITS {
            if parity_check_26bits(data) {
                proof {
                    lemma2_to64();
                    assert((data as nat) % pow2(25) < pow2(25)) by {
                        lemma_mod_division_less_than_divisor(
                            data as int,
                            pow2(25) as int,
                        );
                    }
                }
                let rfid = ((data % 0x200_0000) / 2) as i32;
                Packet::Card { rfid }
            } else {
                Packet::Unknown { bits, data }
            }
        } else {
            Packet::Unknown { bits, data }
        }
    }
}

/// Number of ones among the `n` low-order bits of `v`.
fn count_low_ones(v: u32, n: u32) -> (count: u32)
    requires
        n <= 32,
    ensures
        count == count_low_bits(v as nat, n as nat),
        count <= n,
{
    let mut rest: u32 = v;
    let mut count: u32 = 0;
    let mut i: u32 = 0;
    while i < n
        invariant
            i <= n,
            n <= 32,
            count <= i,
            count + count_low_bits(rest as nat, (n - i) as nat) == count_low_bits(
                v as nat,
                n as nat,
            ),
        decreases n - i,
    {
        count = count + rest % 2;
        rest = rest / 2;
        i = i + 1;
    }
    count
}

/// Checks the two parity bits of a 26-bit card frame: odd parity over the
/// 13 low-order bits, even parity over the 13 high-order bits.
pub fn parity_check_26bits(rfid: u32) -> (ok: bool)
    ensures
        ok == parity_ok_26(rfid as nat),
{
    proof {
        lemma2_to64();
    }
    let low_ones = count_low_ones(rfid, 13);
    if low_ones % 2 == 0 {
        return false;
    }
    let high_ones = count_low_ones(rfid / 0x2000, 13);
    high_ones % 2 == 0
}

/// The parity bit a valid frame carries in its lowest position, given the
/// 24-bit card id: it makes the number of ones among the 13 low-order
/// frame bits odd.
pub open spec fn odd_parity_bit(id: nat) -> nat {
    (1 + count_low_bits(id, 12)) % 2
}

/// The parity bit a valid frame carries in its highest position: it makes
/// the number of ones among the 13 high-order frame bits even.
pub open spec fn even_parity_bit(id: nat) -> nat {
    count_low_bits(id / pow2(12), 12) % 2
}

/// The 26-bit frame that carries `id` between correct parity bits.
pub open spec fn encode_frame(id: nat) -> nat {
    even_parity_bit(id) * pow2(25) + id * 2 + odd_parity_bit(id)
}

/// `v` with its binary digit `k` flipped.
pub open spec fn flip_bit(v: nat, k: nat) -> nat {
    if (v / pow2(k)) % 2 == 0 {
        v + pow2(k)
    } else {
        (v - pow2(k)) as nat
    }
}

/// `count_low_bits` reads only the `n` low-order digits of its argument.
proof fn lemma_count_depends_low(v: nat, n: nat)
    ensures
        count_low_bits(v, n) == count_low_bits(v % pow2(n), n),
    decreases n,
{
    if n == 0 {
        vstd::arithmetic::power2::lemma_pow2_pos(n);
    } else {
        let p = pow2((n - 1) as nat);
        lemma_pow2_unfold(n);
        vstd::arithmetic::power2::lemma_pow2_pos((n - 1) as nat);
        vstd::arithmetic::div_mod::lemma_breakdown(v as int, 2, p as int);
        let m = v % pow2(n);
        let a = (v / 2) % p;
        assert(m == 2 * a + v % 2);
        assert(v % 2 < 2) by {
            lemma_mod_division_less_than_divisor(v as int, 2);
        }
        assert(m % 2 == v % 2 && m / 2 == a) by {
            lemma_fundamental_div_mod_converse(m as int, 2, a as int, (v % 2) as int);
        }
        lemma_count_depends_low(v / 2, (n - 1) as nat);
        assert(count_low_bits(v, n) == v % 2 + count_low_bits(v / 2, (n - 1) as nat));
        assert(count_low_bits(m, n) == m % 2 + count_low_bits(m / 2, (n - 1) as nat));
    }
}

/// Splits a window of `a + b` low-order digits at position `a`.
proof fn lemma_count_split(v: nat, a: nat, b: nat)
    ensures
        count_low_bits(v, a + b) == count_low_bits(v % pow2(a), a) + count_low_bits(
            v / pow2(a),
            b,
        ),
    decreases a,
{
    if a == 0 {
        assert(pow2(0) == 1) by {
            lemma2_to64();
        }
        assert(v % 1 == 0) by {
            lemma_mod_division_less_than_divisor(v as int, 1);
        }
        assert(v / 1 == v) by {
            vstd::arithmetic::div_mod::lemma_div_basics(v as int);
        }
    } else {
        let p = pow2((a - 1) as nat);
        lemma_pow2_unfold(a);
        vstd::arithmetic::power2::lemma_pow2_pos((a - 1) as nat);
        vstd::arithmetic::div_mod::lemma_breakdown(v as int, 2, p as int);
        let m = v % pow2(a);
        let half_mod = (v / 2) % p;
        assert(m == 2 * half_mod + v % 2);
        assert(v % 2 < 2) by {
            lemma_mod_division_less_than_divisor(v as int, 2);
        }
        assert(m % 2 == v % 2 && m / 2 == half_mod) by {
            lemma_fundamental_div_mod_converse(m as int, 2, half_mod as int, (v % 2) as int);
        }
        assert((v / 2) / p == v / pow2(a)) by {
            lemma_div_denominator(v as int, 2, p as int);
        }
        lemma_count_split(v / 2, (a - 1) as nat, b);
    }
}

/// The two 13-bit parity windows of the frame `e * 2^25 + id * 2 + b`,
/// expressed over the card id and the two outer (parity) bits.
proof fn lemma_frame_counts(e: nat, id: nat, b: nat)
    requires
        e < 2,
        b < 2,
        id < pow2(24),
    ensures
        e * pow2(25) + id * 2 + b < pow2(26),
        count_low_bits(e * pow2(25) + id * 2 + b, 13) == b + count_low_bits(id, 12),
        count_low_bits((e * pow2(25) + id * 2 + b) / pow2(13), 13) == e + count_low_bits(
            id / pow2(12),
            12,
        ),
{
    lemma2_to64();
    let f = e * pow2(25) + id * 2 + b;
    let h = e * pow2(24) + id;
    assert(f == 2 * h + b);
    assert(f % 2 == b && f / 2 == h) by {
        lemma_fundamental_div_mod_converse(f as int, 2, h as int, b as int);
    }
    assert(count_low_bits(f, 13) == b + count_low_bits(h, 12));
    assert(h % pow2(12) == id % pow2(12)) by {
        assert(h == pow2(12) * (e * pow2(12)) + id);
        lemma_mod_multiples_vanish((e * pow2(12)) as int, id as int, pow2(12) as int);
    }
    lemma_count_depends_low(h, 12);
    lemma_count_depends_low(id, 12);
    assert(count_low_bits(f, 13) == b + count_low_bits(id, 12));
    let x = id / pow2(12);
    assert(x < pow2(12)) by {
        lemma_multiply_divide_lt(id as int, pow2(12) as int, pow2(12) as int);
    }
    assert((id * 2 + b) / 2 == id && (id * 2 + b) % 2 == b) by {
        lemma_fundamental_div_mod_converse((id * 2 + b) as int, 2, id as int, b as int);
    }
    assert((id * 2 + b) / pow2(13) == x) by {
        lemma_div_denominator((id * 2 + b) as int, 2, pow2(12) as int);
    }
    let y = e * pow2(12) + x;
    assert(f / pow2(13) == y) by {
        lemma_hoist_over_denominator(
            (id * 2 + b) as int,
            (e * pow2(12)) as int,
            pow2(13) as nat,
        );
    }
    lemma_count_split(y, 12, 1);
    assert(y % pow2(12) == x && y / pow2(12) == e) by {
        lemma_fundamental_div_mod_converse(y as int, pow2(12) as int, e as int, x as int);
    }
    assert(count_low_bits(e, 1) == e) by {
        lemma_fundamental_div_mod_converse(e as int, 2, 0, e as int);
        assert(count_low_bits((e / 2) as nat, 0) == 0);
    }
    assert(count_low_bits(f / pow2(13), 13) == e + count_low_bits(x, 12));
}

/// A frame encoded from a 24-bit id carries that id and passes both
/// parity checks.
pub proof fn lemma_encode_valid(id: nat)
    requires
        id < pow2(24),
    ensures
        encode_frame(id) < pow2(26),
        parity_ok_26(encode_frame(id)),
        card_id(encode_frame(id)) == id,
{
    lemma2_to64();
    let b = odd_parity_bit(id);
    let e = even_parity_bit(id);
    assert(b < 2) by {
        lemma_mod_division_less_than_divisor((1 + count_low_bits(id, 12)) as int, 2);
    }
    assert(e < 2) by {
        lemma_mod_division_less_than_divisor(count_low_bits(id / pow2(12), 12) as int, 2);
    }
    lemma_frame_counts(e, id, b);
    let f = encode_frame(id);
    assert(f == e * pow2(25) + id * 2 + b);
    assert(count_low_bits(f, 13) % 2 == 1);
    assert(count_low_bits(f / pow2(13), 13) % 2 == 0);
    assert(f % pow2(25) == id * 2 + b) by {
        lemma_mod_multiples_vanish(e as int, (id * 2 + b) as int, pow2(25) as int);
        lemma_small_mod(id * 2 + b, pow2(25));
    }
    assert((id * 2 + b) / 2 == id) by {
        lemma_fundamental_div_mod_converse((id * 2 + b) as int, 2, id as int, b as int);
    }
}

/// Decoding a valid frame and re-encoding the recovered id with correct
/// parity bits reproduces the frame exactly.
pub proof fn lemma_encode_round_trip(f: nat)
    requires
        f < pow2(26),
        parity_ok_26(f),
    ensures
        card_id(f) < pow2(24),
        encode_frame(card_id(f)) == f,
{
    lemma2_to64();
    let e = f / pow2(25);
    let m = f % pow2(25);
    let b = m % 2;
    let id = m / 2;
    assert(id == card_id(f));
    assert(e < 2) by {
        lemma_multiply_divide_lt(f as int, pow2(25) as int, 2);
    }
    assert(m < pow2(25)) by {
        lemma_mod_division_less_than_divisor(f as int, pow2(25) as int);
    }
    assert(id < pow2(24)) by {
        lemma_multiply_divide_lt(m as int, 2, pow2(24) as int);
    }
    assert(b < 2) by {
        lemma_mod_division_less_than_divisor(m as int, 2);
    }
    assert(f == pow2(25) * e + m) by {
        lemma_fundamental_div_mod(f as int, pow2(25) as int);
    }
    assert(m == 2 * id + b) by {
        lemma_fundamental_div_mod(m as int, 2);
    }
    assert(f == e * pow2(25) + id * 2 + b);
    lemma_frame_counts(e, id, b);
    assert(b == odd_parity_bit(id));
    assert(e == even_parity_bit(id));
}

/// Flipping the trailing parity bit of a valid frame breaks the odd
/// parity check.
pub proof fn lemma_flip_trailing_parity(f: nat)
    requires
        parity_ok_26(f),
    ensures
        !parity_ok_26(flip_bit(f, 0)),
{
    lemma2_to64();
    assert(f / pow2(0) == f) by {
        vstd::arithmetic::div_mod::lemma_div_basics(f as int);
    }
    let g = flip_bit(f, 0);
    let q = f / 2;
    if f % 2 == 0 {
        assert(g == f + 1);
        assert(f == 2 * q + 0) by {
            lemma_fundamental_div_mod(f as int, 2);
        }
        assert(g % 2 == 1 && g / 2 == q) by {
            lemma_fundamental_div_mod_converse(g as int, 2, q as int, 1);
        }
        assert(count_low_bits(g, 13) == 1 + count_low_bits(q, 12));
        assert(count_low_bits(f, 13) == 0 + count_low_bits(q, 12));
    } else {
        assert(f % 2 == 1) by {
            lemma_mod_division_less_than_divisor(f as int, 2);
        }
        assert(f == 2 * q + 1) by {
            lemma_fundamental_div_mod(f as int, 2);
        }
        assert(g == 2 * q);
        assert(g % 2 == 0 && g / 2 == q) by {
            lemma_fundamental_div_mod_converse(g as int, 2, q as int, 0);
        }
        assert(count_low_bits(g, 13) == 0 + count_low_bits(q, 12));
        assert(count_low_bits(f, 13) == 1 + count_low_bits(q, 12));
    }
}

/// Flipping the leading parity bit of a valid 26-bit frame breaks the
/// even parity check.
pub proof fn lemma_flip_leading_parity(f: nat)
    requires
        f < pow2(26),
        parity_ok_26(f),
    ensures
        !parity_ok_26(flip_bit(f, 25)),
{
    lemma2_to64();
    let e = f / pow2(25);
    let m = f % pow2(25);
    let b = m % 2;
    let id = m / 2;
    assert(e < 2) by {
        lemma_multiply_divide_lt(f as int, pow2(25) as int, 2);
    }
    assert(m < pow2(25)) by {
        lemma_mod_division_less_than_divisor(f as int, pow2(25) as int);
    }
    assert(id < pow2(24)) by {
        lemma_multiply_divide_lt(m as int, 2, pow2(24) as int);
    }
    assert(b < 2) by {
        lemma_mod_division_less_than_divisor(m as int, 2);
    }
    assert(f == pow2(25) * e + m) by {
        lemma_fundamental_div_mod(f as int, pow2(25) as int);
    }
    assert(m == 2 * id + b) by {
        lemma_fundamental_div_mod(m as int, 2);
    }
    assert(e % 2 == e) by {
        lemma_small_mod(e, 2);
    }
    let flipped: nat = if e == 0 {
        1
    } else {
        0
    };
    let g = flip_bit(f, 25);
    assert(g == flipped * pow2(25) + id * 2 + b);
    lemma_frame_counts(e, id, b);
    lemma_frame_counts(flipped, id, b);
}

/// The first byte of the four-byte capture buffer as the device lays it
/// out: the captured bits left-aligned, first bit at the byte's top.
pub open spec fn first_capture_byte(bits: u32, data: u32) -> nat {
    ((data as nat) * pow2((32 - bits) as nat)) / pow2(24)
}

/// For every valid 4-bit frame the classified digit equals the top
/// nibble of the captured byte.
pub proof fn lemma_key_digit_is_top_nibble(data: u32)
    requires
        (data as nat) < pow2(4),
    ensures
        Packet::classify(KEY_FRAME_BITS, data) == (Packet::Key { key: data as u8 }),
        data as nat == first_capture_byte(KEY_FRAME_BITS, data) / pow2(4),
{
    lemma2_to64();
    let d = data as nat;
    assert(d * pow2(28) == (d * 16) * pow2(24));
    assert((d * 16 * pow2(24)) / pow2(24) == d * 16) by {
        vstd::arithmetic::div_mod::lemma_div_multiples_vanish(
            (d * 16) as int,
            pow2(24) as int,
        );
    }
    assert((d * 16) / 16 == d) by {
        vstd::arithmetic::div_mod::lemma_div_multiples_vanish(d as int, 16);
    }
}

/// A 26-bit frame with correct parity is classified as a card, and
/// encoding the recovered id with correct parity bits reproduces the raw
/// frame.
pub proof fn lemma_classify_card_round_trip(data: u32)
    requires
        (data as nat) < pow2(26),
        parity_ok_26(data as nat),
    ensures
        Packet::classify(CARD_FRAME_BITS, data) == (Packet::Card {
            rfid: card_id(data as nat) as i32,
        }),
        encode_frame(card_id(data as nat)) == data as nat,
{
    lemma_encode_round_trip(data as nat);
}

/// A 26-bit frame with either parity bit flipped is classified `Unknown`.
pub proof fn lemma_classify_flipped_parity_unknown(data: u32, flipped: u32)
    requires
        (data as nat) < pow2(26),
        parity_ok_26(data as nat),
        flipped as nat == flip_bit(data as nat, 0) || flipped as nat == flip_bit(
            data as nat,
            25,
        ),
    ensures
        Packet::classify(CARD_FRAME_BITS, flipped) == (Packet::Unknown {
            bits: CARD_FRAME_BITS,
            data: flipped,
        }),
{
    if flipped as nat == flip_bit(data as nat, 0) {
        lemma_flip_trailing_parity(data as nat);
    } else {
        lemma_flip_leading_parity(data as nat);
    }
}

/// Builds the 26-bit frame that carries a 24-bit card id with correct
/// parity bits.
pub fn encode_26bits(id: u32) -> (frame: u32)
    requires
        (id as nat) < pow2(24),
    ensures
        frame as nat == encode_frame(id as nat),
        (frame as nat) < pow2(26),
        parity_ok_26(frame as nat),
        card_id(frame as nat) == id as nat,
{
    proof {
        lemma2_to64();
        lemma_encode_valid(id as nat);
    }
    let low_ones = count_low_ones(id, 12);
    let odd_bit: u32 = (1 + low_ones) % 2;
    let high_ones = count_low_ones(id / 0x1000, 12);
    let even_bit: u32 = high_ones % 2;
    even_bit * 0x200_0000 + id * 2 + odd_bit
}

/// Bits captured from the two signal lines since the last completed frame.
pub struct CaptureState {
    /// How many bits have been captured.
    pub bits: u32,
    /// The captured bits as an integer, first-captured bit most
    /// significant.
    pub data: u32,
}

impl CaptureState {
    /// The buffer value always fits in the captured bit count.
    pub open spec fn wf(self) -> bool {
        &&& self.bits <= CAPTURE_CAPACITY
        &&& (self.data as nat) < pow2(self.bits as nat)
    }

    /// An empty capture buffer.
    pub fn new() -> (state: CaptureState)
        ensures
            state.wf(),
            state.bits == 0,
            state.data == 0,
    {
        proof {
            lemma2_to64();
        }
        CaptureState { bits: 0, data: 0 }
    }

    /// Empties the buffer, ready for the next frame.
    pub fn reset(&mut self)
        ensures
            final(self).wf(),
            final(self).bits == 0,
            final(self).data == 0,
    {
        proof {
            lemma2_to64();
        }
        self.bits = 0;
        self.data = 0;
    }

    /// Folds one line transition into the buffer, given the levels of the
    /// two lines at the moment of the interrupt.
    ///
    /// Identical levels are electrical noise and are ignored.  A
    /// transition with the buffer already at capacity is dropped whole.
    /// The result says whether a bit was accepted, in which case the
    /// caller must restart the frame-completion timer; a dropped
    /// transition must leave any running timer alone.
    pub fn push_transition(&mut self, d0_high: bool, d1_high: bool) -> (accepted: bool)
        requires
            old(self).wf(),
        ensures
            final(self).wf(),
            d0_high == d1_high ==> *final(self) == *old(self) && !accepted,
            d0_high != d1_high && old(self).bits == CAPTURE_CAPACITY ==> !accepted && *final(self)
                == *old(self),
            d0_high != d1_high && old(self).bits < CAPTURE_CAPACITY ==> accepted
                && final(self).bits == old(self).bits + 1
                && final(self).data == old(self).data * 2 + (if d0_high { 1u32 } else { 0u32 }),
    {
        if d0_high == d1_high {
            return false;
        }
        if self.bits >= CAPTURE_CAPACITY {
            return false;
        }
        proof {
            lemma2_to64();
            assert(pow2(self.bits as nat) <= pow2(31)) by {
                if self.bits < 31 {
                    lemma_pow2_strictly_increases(
                        self.bits as nat,
                        31,
                    );
                }
            }
            assert(pow2((self.bits + 1) as nat) == 2 * pow2(self.bits as nat)) by {
                lemma_pow2_adds(self.bits as nat, 1);
            }
        }
        let bit: u32 = if d0_high {
            1
        } else {
            0
        };
        self.data = self.data * 2 + bit;
        self.bits = self.bits + 1;
        true
    }

    /// Completes the frame when the inactivity timer fires: classifies
    /// the captured bits and empties the buffer.
    pub fn finish_frame(&mut self) -> (packet: Packet)
        requires
            old(self).wf(),
        ensures
            final(self).wf(),
            final(self).bits == 0,
            final(self).data == 0,
            packet == Packet::classify(old(self).bits, old(self).data),
            packet.wf(),
    {
        let packet = Packet::new(self.bits, self.data);
        self.reset();
        packet
    }
}

} // verus!
