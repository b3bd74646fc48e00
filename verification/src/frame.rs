//! The frame that carries a found value back to the client: a header byte
//! `10ww_0000`, then `ww` bytes holding the value's length, most significant
//! first, then the value.
use vstd::prelude::*;
use vstd::arithmetic::div_mod::{lemma_div_denominator, lemma_mod_breakdown};

verus! {

/// The largest payload that a frame can carry.
pub const MAX_FRAME_DATA: usize = 0x100_0000;

/// The number that some bytes stand for, most significant first.
pub open spec fn be_number(s: Seq<u8>) -> nat
    decreases s.len(),
{
    if s.len() == 0 {
        0
    } else {
        (be_number(s.drop_last()) * 256 + s.last()) as nat
    }
}

/// The ceiling of the base-2 logarithm of `n` for `n >= 1`; 0 for `n == 0`.
pub open spec fn ceil_log2(n: nat) -> nat
    decreases n,
{
    if n <= 1 {
        0
    } else {
        1 + ceil_log2(((n + 1) / 2) as nat)
    }
}

/// Two to the power `e`.
pub open spec fn two_pow(e: nat) -> nat
    decreases e,
{
    if e == 0 {
        1
    } else {
        2 * two_pow((e - 1) as nat)
    }
}

/// 256 to the power `i`.
pub open spec fn pow256(i: nat) -> nat
    decreases i,
{
    if i == 0 {
        1
    } else {
        256 * pow256((i - 1) as nat)
    }
}

/// How many bytes of a frame hold the length `n`: a byte for each started eight
/// bits of the length's logarithm.
pub open spec fn size_bytes_needed(n: nat) -> nat {
    (ceil_log2(n) + 7) / 8
}

/// The header byte of a frame whose length takes `w` bytes.
pub open spec fn frame_header(w: nat) -> u8 {
    (0b1000_0000 + 0b1_0000 * w) as u8
}

/// The `w` bytes that hold `n`, most significant first (`n` taken modulo 256 to the `w`).
pub open spec fn size_field(n: nat, w: nat) -> Seq<u8> {
    Seq::new(w, |j: int| ((n / pow256((w - 1 - j) as nat)) % 256) as u8)
}

/// The frame that carries `data`.
pub open spec fn frame(data: Seq<u8>) -> Seq<u8> {
    let w = size_bytes_needed(data.len());
    seq![frame_header(w)] + size_field(data.len(), w) + data
}

/// A length of at most two to the `e` has a logarithm of at most `e`.
pub proof fn lemma_ceil_log2_bound(n: nat, e: nat)
    requires
        n <= two_pow(e),
    ensures
        ceil_log2(n) <= e,
    decreases n,
{
    if n > 1 {
        if e == 0 {
            assert(two_pow(0) == 1);
        } else {
            assert(two_pow(e) == 2 * two_pow((e - 1) as nat));
            lemma_ceil_log2_bound(((n + 1) / 2) as nat, (e - 1) as nat);
        }
    }
}

proof fn lemma_two_pow_24()
    ensures
        two_pow(24) == 0x100_0000,
{
    reveal_with_fuel(two_pow, 25);
}

proof fn lemma_pow256_positive(i: nat)
    ensures
        pow256(i) > 0,
    decreases i,
{
    if i > 0 {
        lemma_pow256_positive((i - 1) as nat);
    }
}

/// The bytes of a size field stand for the length they were made from, modulo
/// 256 to the number of bytes.
pub proof fn lemma_size_field_value(n: nat, w: nat)
    ensures
        be_number(size_field(n, w)) == n % pow256(w),
    decreases w,
{
    lemma_pow256_positive(w);
    if w == 0 {
        assert(size_field(n, w).len() == 0);
    } else {
        let s = size_field(n, w);
        let p = pow256((w - 1) as nat);
        lemma_pow256_positive((w - 1) as nat);
        assert forall|j: int| 0 <= j < w - 1 implies #[trigger] s.drop_last()[j] == size_field(
            n / 256,
            (w - 1) as nat,
        )[j] by {
            let q = pow256((w - 2 - j) as nat);
            lemma_pow256_positive((w - 2 - j) as nat);
            assert(pow256((w - 1 - j) as nat) == 256 * q);
            lemma_div_denominator(n as int, 256, q as int);
        }
        assert(s.drop_last() =~= size_field(n / 256, (w - 1) as nat));
        assert(pow256(0) == 1);
        assert(n / 1 == n);
        assert(s[w - 1] == ((n / pow256(0)) % 256) as u8);
        assert(s.last() == n % 256);
        lemma_size_field_value(n / 256, (w - 1) as nat);
        lemma_mod_breakdown(n as int, 256, p as int);
        assert(pow256(w) == 256 * p);
    }
}

proof fn lemma_ceil_log2_covers(n: nat)
    ensures
        n <= two_pow(ceil_log2(n)),
    decreases n,
{
    if n > 1 {
        lemma_ceil_log2_covers(((n + 1) / 2) as nat);
    }
}

proof fn lemma_two_pow_monotone(a: nat, b: nat)
    requires
        a <= b,
    ensures
        two_pow(a) <= two_pow(b),
    decreases b,
{
    if a < b {
        lemma_two_pow_monotone(a, (b - 1) as nat);
    }
}

/// A frame starts with a byte whose top bits `10` mark an answer and whose
/// bits 5 and 4 say how many bytes hold the length; those bytes follow, then
/// the data. The length bytes hold the data's length modulo 256 to their
/// number, which is the length itself for every length but 1, 256, 65536 and
/// 16777216: for those the field is a byte too short and holds 0.
pub proof fn lemma_frame_layout(data: Seq<u8>)
    requires
        data.len() <= MAX_FRAME_DATA,
    ensures
        ({
            let f = frame(data);
            let n = data.len();
            let w = size_bytes_needed(n);
            &&& w <= 3
            &&& (f[0] & 0b1100_0000) >> 6 == 2
            &&& (f[0] & 0b0011_0000) >> 4 == w
            &&& f.skip(1 + w as int) == data
            &&& be_number(f.subrange(1, 1 + w as int)) == n % pow256(w)
            &&& (n != 1 && n != 0x100 && n != 0x1_0000 && n != 0x100_0000 ==> be_number(
                f.subrange(1, 1 + w as int),
            ) == n)
        }),
{
    let f = frame(data);
    let n = data.len();
    let c = ceil_log2(n);
    let w = size_bytes_needed(n);
    lemma_two_pow_24();
    lemma_ceil_log2_bound(n, 24);
    lemma_ceil_log2_covers(n);
    lemma_two_pow_monotone(c, 8 * w);
    assert(w <= 3);
    let h = frame_header(w);
    assert(f[0] == h);
    reveal_with_fuel(two_pow, 25);
    reveal_with_fuel(pow256, 4);
    if w == 0 {
        assert(h == 0x80u8);
        assert((0x80u8 & 0b1100_0000u8) >> 6u8 == 2u8 && (0x80u8 & 0b0011_0000u8) >> 4u8 == 0u8) by (bit_vector);
    } else if w == 1 {
        assert(h == 0x90u8);
        assert((0x90u8 & 0b1100_0000u8) >> 6u8 == 2u8 && (0x90u8 & 0b0011_0000u8) >> 4u8 == 1u8) by (bit_vector);
    } else if w == 2 {
        assert(h == 0xA0u8);
        assert((0xA0u8 & 0b1100_0000u8) >> 6u8 == 2u8 && (0xA0u8 & 0b0011_0000u8) >> 4u8 == 2u8) by (bit_vector);
    } else {
        assert(h == 0xB0u8);
        assert((0xB0u8 & 0b1100_0000u8) >> 6u8 == 2u8 && (0xB0u8 & 0b0011_0000u8) >> 4u8 == 3u8) by (bit_vector);
    }
    assert(two_pow(8 * w) == pow256(w));
    assert(f.subrange(1, 1 + w as int) =~= size_field(n, w));
    assert(f.skip(1 + w as int) =~= data);
    lemma_size_field_value(n, w);
    if n != 1 && n != 0x100 && n != 0x1_0000 && n != 0x100_0000 {
        assert(n < pow256(w));
        vstd::arithmetic::div_mod::lemma_small_mod(n, pow256(w));
    }
}

/// The bytes of `data`, behind a header that says how long it is.
pub fn add_get_data(data: &[u8]) -> (r: Vec<u8>)
    requires
        data@.len() <= MAX_FRAME_DATA,
    ensures
        r@ == frame(data@),
{
    let data_len = data.len();
    proof {
        lemma_two_pow_24();
        lemma_ceil_log2_bound(data_len as nat, 24);
    }
    let mut m: usize = data_len;
    let mut log: usize = 0;
    while m > 1
        invariant
            m <= data_len <= MAX_FRAME_DATA,
            log + ceil_log2(m as nat) == ceil_log2(data_len as nat),
            ceil_log2(data_len as nat) <= 24,
        decreases m,
    {
        m = (m + 1) / 2;
        log = log + 1;
    }
    let bytes_needed = (log + 7) / 8;
    let msg: u8 = if bytes_needed == 0 {
        0b1000_0000
    } else if bytes_needed == 1 {
        0b1001_0000
    } else if bytes_needed == 2 {
        0b1010_0000
    } else {
        0b1011_0000
    };
    let ghost w = bytes_needed as nat;
    let mut final_message: Vec<u8> = Vec::new();
    final_message.push(msg);
    let mut idx: usize = 0;
    while idx < bytes_needed
        invariant
            bytes_needed <= 3,
            w == bytes_needed,
            idx <= bytes_needed,
            final_message@ == seq![msg] + size_field(data_len as nat, w).take(idx as int),
        decreases bytes_needed - idx,
    {
        let i = bytes_needed - 1 - idx;
        let shift = i * 8;
        let v = (data_len >> shift) & 0xFF;
        proof {
            reveal_with_fuel(pow256, 3);
            let n = data_len;
            assert(n >> shift & 0xFFusize <= 0xFFusize) by (bit_vector);
            if i == 0 {
                assert(shift == 0);
                assert((n >> 0usize) & 0xFFusize == n % 256usize) by (bit_vector);
                assert(pow256(0) == 1);
                assert(n as nat / 1 == n);
                assert(v == (n as nat / pow256(i as nat)) % 256);
            } else if i == 1 {
                assert(shift == 8);
                assert((n >> 8usize) & 0xFFusize == (n / 256usize) % 256usize) by (bit_vector);
                assert(v == (n as nat / pow256(i as nat)) % 256);
            } else {
                assert(shift == 16);
                assert((n >> 16usize) & 0xFFusize == (n / 65536usize) % 256usize) by (bit_vector);
                assert(v == (n as nat / pow256(i as nat)) % 256);
            }
        }
        let byte = v as u8;
        proof {
            assert(byte == size_field(data_len as nat, w)[idx as int]);
            assert(size_field(data_len as nat, w).take(idx + 1) =~= size_field(data_len as nat, w).take(
                idx as int,
            ).push(byte));
        }
        final_message.push(byte);
        idx = idx + 1;
    }
    let ghost head = final_message@;
    let mut j: usize = 0;
    while j < data_len
        invariant
            data_len == data@.len(),
            j <= data_len,
            final_message@ == head + data@.take(j as int),
        decreases data_len - j,
    {
        final_message.push(data[j]);
        j = j + 1;
        assert(final_message@ =~= head + data@.take(j as int));
    }
    proof {
        assert(size_field(data_len as nat, w).take(w as int) =~= size_field(data_len as nat, w));
        assert(data@.take(data_len as int) =~= data@);
        assert(msg == frame_header(w));
        assert(final_message@ =~= frame(data@));
    }
    final_message
}

} // verus!
