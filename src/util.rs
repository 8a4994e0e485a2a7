use crate::log2::{lemma_log2_hi, lemma_log2_lo, log2_fixed, log2_hi, log2_lo, span};
use crate::model::{index_in, lut_of, sat};
use crate::utf_base::lemma_encode_utf8_len;
use vstd::arithmetic::power::*;
use vstd::prelude::*;
use vstd::utf8::encode_utf8;

verus! {

/// Bytes that `digits` digits of `base` can need: `digits * log(base) / log(256)`, rounded down,
/// plus one, with `log2(base)` taken from above to 32 fractional bits.
pub open spec fn decoded_size_spec(base: nat, digits: nat) -> usize {
    sat(digits * log2_hi(base) / (8 * span()) + 1)
}

/// Digits of `base` that `bytes` bytes can need: `bytes * log(256) / log(base)`, rounded down,
/// plus one, with `log2(base)` taken from below to 32 fractional bits.
pub open spec fn encoded_size_spec(base: nat, bytes: nat) -> usize {
    sat(bytes * (8 * span()) / log2_lo(base) + 1)
}

/// Powers keep the order of their bases.
pub proof fn lemma_pow_base_le(x: nat, y: nat, e: nat)
    requires
        1 <= x <= y,
    ensures
        0 < pow(x as int, e) <= pow(y as int, e),
    decreases e,
{
    reveal(pow);
    if e > 0 {
        lemma_pow_base_le(x, y, (e - 1) as nat);
        let px = pow(x as int, (e - 1) as nat);
        let py = pow(y as int, (e - 1) as nat);
        assert(0 < x * px <= y * py) by (nonlinear_arith)
            requires
                0 < x <= y,
                0 < px <= py,
        ;
    }
}

/// Where the `e`-th powers are ordered, so are the bases.
pub proof fn lemma_pow_root_le(x: nat, y: nat, e: nat)
    requires
        e >= 1,
        1 <= x,
        1 <= y,
        pow(x as int, e) <= pow(y as int, e),
    ensures
        x <= y,
{
    if x > y {
        lemma_pow_base_le(y, x, (e - 1) as nat);
        reveal(pow);
        let px = pow(x as int, (e - 1) as nat);
        let py = pow(y as int, (e - 1) as nat);
        assert(y * py < x * px) by (nonlinear_arith)
            requires
                0 < y < x,
                0 < py <= px,
        ;
    }
}

/// The byte estimate suffices: `digits` digits of `base` are worth less than
/// `256^decoded_size_spec(base, digits)` (where the estimate does not saturate).
pub proof fn lemma_decoded_size_suffices(base: nat, digits: nat)
    requires
        2 <= base <= 256,
        decoded_size_spec(base, digits) < usize::MAX,
    ensures
        pow(base as int, digits) <= pow(256, decoded_size_spec(base, digits) as nat),
{
    let e = span();
    let hi = log2_hi(base);
    let r = decoded_size_spec(base, digits) as nat;
    lemma_log2_hi(base);
    assert(r == digits * hi / (8 * e) + 1);
    assert(digits * hi < (8 * e) * r) by (nonlinear_arith)
        requires
            r == digits * hi / (8 * e) + 1,
            e > 0,
    ;
    lemma_pow_positive(base as int, e);
    lemma_pow_base_le(pow(base as int, e) as nat, pow(2, hi) as nat, digits);
    lemma_pow_multiplies(base as int, e, digits);
    lemma_pow_multiplies(base as int, digits, e);
    lemma_pow_multiplies(2, hi, digits);
    lemma_pow_increases(2, hi * digits, (8 * e) * r);
    lemma_pow_multiplies(2, 8, e * r);
    lemma_pow_multiplies(256, r, e);
    assert(pow(2, 8) == 256) by {
        reveal_with_fuel(pow, 9);
    }
    assert(8 * (e * r) == (8 * e) * r) by (nonlinear_arith);
    assert(e * digits == digits * e) by (nonlinear_arith);
    assert(hi * digits == digits * hi) by (nonlinear_arith);
    assert(r * e == e * r) by (nonlinear_arith);
    lemma_pow_positive(base as int, digits);
    lemma_pow_positive(256, r);
    lemma_pow_root_le(pow(base as int, digits) as nat, pow(256, r) as nat, e);
}

/// The digit estimate suffices: `bytes` bytes are worth less than
/// `base^encoded_size_spec(base, bytes)` (where the estimate does not saturate).
pub proof fn lemma_encoded_size_suffices(base: nat, bytes: nat)
    requires
        2 <= base <= 256,
        encoded_size_spec(base, bytes) < usize::MAX,
    ensures
        pow(256, bytes) <= pow(base as int, encoded_size_spec(base, bytes) as nat),
{
    let e = span();
    let lo = log2_lo(base);
    let r = encoded_size_spec(base, bytes) as nat;
    lemma_log2_lo(base);
    assert(r == bytes * (8 * e) / lo + 1);
    assert(bytes * (8 * e) < lo * r) by (nonlinear_arith)
        requires
            r == bytes * (8 * e) / lo + 1,
            lo >= 1,
    ;
    lemma_pow_positive(2, lo);
    lemma_pow_base_le(pow(2, lo) as nat, pow(base as int, e) as nat, r);
    lemma_pow_multiplies(base as int, e, r);
    lemma_pow_multiplies(base as int, r, e);
    lemma_pow_multiplies(2, lo, r);
    assert(bytes * (8 * e) == (8 * e) * bytes) by (nonlinear_arith);
    lemma_pow_increases(2, (8 * e) * bytes, lo * r);
    lemma_pow_multiplies(2, 8, e * bytes);
    lemma_pow_multiplies(256, bytes, e);
    assert(pow(2, 8) == 256) by {
        reveal_with_fuel(pow, 9);
    }
    assert(8 * (e * bytes) == (8 * e) * bytes) by (nonlinear_arith);
    assert(e * r == r * e) by (nonlinear_arith);
    assert(bytes * e == e * bytes) by (nonlinear_arith);
    lemma_pow_positive(base as int, r);
    lemma_pow_positive(256, bytes);
    lemma_pow_root_le(pow(256, bytes) as nat, pow(base as int, r) as nat, e);
}

/// `n` as a `usize`, saturated at `usize::MAX`.
fn saturate(n: u128) -> (r: usize)
    ensures
        r == sat(n as nat),
{
    if n > usize::MAX as u128 {
        usize::MAX
    } else {
        n as usize
    }
}

/// Upper bound on the bytes that `input_byte_size` digits of `base` decode to: the number of
/// digits times `log(base) / log(256)`, rounded down, plus one. It may exceed the need by one
/// byte; it saturates at `usize::MAX`.
pub fn decoded_size(base: usize, input_byte_size: usize) -> (r: usize)
    requires
        2 <= base <= 256,
    ensures
        r == decoded_size_spec(base as nat, input_byte_size as nat),
{
    let (a, y) = log2_fixed(base, true);
    proof {
        lemma_log2_hi(base as nat);
    }
    let hi = if y > 0x4000_0000_0000_0000 {
        a + 1
    } else {
        a
    };
    proof {
        lemma_log2_hi(base as nat);
        assert(input_byte_size as u128 * hi <= 0xffff_ffff_ffff_ffffu128 * 0x9_0000_0000)
            by (nonlinear_arith)
            requires
                input_byte_size <= 0xffff_ffff_ffff_ffffu128,
                hi <= 0x9_0000_0000u128,
        ;
    }
    saturate(input_byte_size as u128 * hi / 0x8_0000_0000 + 1)
}

/// Upper bound on the digits of `base` that `input_byte_size` bytes encode to: the number of
/// bytes times `log(256) / log(base)`, rounded down, plus one. It may exceed the need by one
/// digit; it saturates at `usize::MAX`.
pub fn encoded_size(base: usize, input_byte_size: usize) -> (r: usize)
    requires
        2 <= base <= 256,
    ensures
        r == encoded_size_spec(base as nat, input_byte_size as nat),
{
    let (lo, _) = log2_fixed(base, false);
    proof {
        lemma_log2_lo(base as nat);
        assert(input_byte_size as u128 * 0x8_0000_0000 <= 0xffff_ffff_ffff_ffffu128 * 0x8_0000_0000)
            by (nonlinear_arith)
            requires
                input_byte_size <= 0xffff_ffff_ffff_ffffu128,
        ;
    }
    saturate(input_byte_size as u128 * 0x8_0000_0000 / lo + 1)
}

/// The same estimate as [`decoded_size`], for sizing an owned output.
pub fn decoded_arr_size(base: usize, input_byte_size: usize) -> (r: usize)
    requires
        2 <= base <= 256,
    ensures
        r == decoded_size_spec(base as nat, input_byte_size as nat),
{
    decoded_size(base, input_byte_size)
}

/// The same estimate as [`encoded_size`], for sizing an owned output.
pub fn encoded_arr_size(base: usize, input_byte_size: usize) -> (r: usize)
    requires
        2 <= base <= 256,
    ensures
        r == encoded_size_spec(base as nat, input_byte_size as nat),
{
    encoded_size(base, input_byte_size)
}

/// Lookup table of an ASCII alphabet: each symbol's byte maps to its index, every other byte
/// to -1.
pub fn gen_lut<const BASE: usize>(alphabet: &[u8; BASE]) -> (lut: [i8; 256])
    requires
        BASE <= 128,
        crate::model::distinct(alphabet@),
    ensures
        lut_of(lut@, alphabet@),
{
    let mut lut: [i8; 256] = vstd::array::array_fill_for_copy_types(-1i8);
    let mut i: usize = 0;
    proof {
        assert forall|u: u8| #![trigger lut@[u as int]] lut@[u as int] == -1 by {
            assert(0 <= u as int && (u as int) < 256);
        }
    }
    while i < BASE
        invariant
            i <= BASE,
            BASE <= 128,
            alphabet@.len() == BASE,
            crate::model::distinct(alphabet@),
            lut@.len() == 256,
            forall|u: u8|
                #![trigger lut@[u as int]]
                lut@[u as int] as int == if exists|j: int| 0 <= j < i && alphabet@[j] == u {
                    index_in(alphabet@, u).unwrap() as int
                } else {
                    -1
                },
        decreases BASE - i,
    {
        let ghost before = lut@;
        let sym = alphabet[i];
        proof {
            crate::model::lemma_index_in(alphabet@, i as int);
        }
        lut[sym as usize] = i as i8;
        proof {
            assert forall|u: u8| #![trigger lut@[u as int]]
                lut@[u as int] as int == if exists|j: int| 0 <= j < i + 1 && alphabet@[j] == u {
                    index_in(alphabet@, u).unwrap() as int
                } else {
                    -1
                } by {
                if u != sym {
                    assert(lut@[u as int] == before[u as int]);
                    if exists|j: int| 0 <= j < i + 1 && alphabet@[j] == u {
                        let j = choose|j: int| 0 <= j < i + 1 && alphabet@[j] == u;
                        assert(j != i);
                    }
                } else {
                    assert(alphabet@[i as int] == u);
                }
            }
        }
        i = i + 1;
    }
    proof {
        assert forall|u: u8| #![trigger lut@[u as int]]
            lut@[u as int] as int == match index_in(alphabet@, u) {
                Some(k) => k as int,
                None => -1,
            } by {
            if exists|j: int| 0 <= j < BASE && alphabet@[j] == u {
                let j = choose|j: int| 0 <= j < BASE && alphabet@[j] == u;
                assert(alphabet@[j] == u);
            }
        }
    }
    lut
}

/// The characters of the bytes of an ASCII alphabet, in the same order.
pub fn ascii_to_char_arr<const S: usize>(ascii: [u8; S]) -> (arr: [char; S])
    ensures
        arr@ == ascii@.map_values(|b: u8| b as char),
{
    let mut arr: [char; S] = vstd::array::array_fill_for_copy_types(' ');
    let mut ch: usize = 0;
    while ch < S
        invariant
            ch <= S,
            arr@.len() == S,
            ascii@.len() == S,
            forall|j: int| 0 <= j < ch ==> arr@[j] == ascii@[j] as char,
        decreases S - ch,
    {
        arr[ch] = ascii[ch] as char;
        ch = ch + 1;
    }
    assert(arr@ =~= ascii@.map_values(|b: u8| b as char));
    arr
}

/// Relies on `char::encode_utf8`: the UTF-8 bytes of `c` at the front of a four-byte array, and
/// their count.
#[verifier::external_body]
pub(crate) fn utf8_of(c: char) -> (r: ([u8; 4], usize))
    ensures
        r.1 == encode_utf8(seq![c]).len(),
        r.0@.subrange(0, r.1 as int) == encode_utf8(seq![c]),
{
    let mut bytes = [0u8; 4];
    let n = c.encode_utf8(&mut bytes).len();
    (bytes, n)
}

/// The length in bytes of the longest UTF-8 form among the characters of `s` (zero for none).
pub open spec fn max_utf8_len(s: Seq<char>) -> nat
    decreases s.len(),
{
    if s.len() == 0 {
        0
    } else {
        let m = max_utf8_len(s.drop_last());
        let l = encode_utf8(seq![s.last()]).len();
        if l > m {
            l
        } else {
            m
        }
    }
}

/// The length in bytes of the longest UTF-8 form among `chars`.
pub fn max_utf8_char_len<const S: usize>(chars: [char; S]) -> (max: usize)
    ensures
        max == max_utf8_len(chars@),
        max <= 4,
        S > 0 ==> max >= 1,
{
    let mut max: usize = 0;
    let mut ch: usize = 0;
    proof {
        assert(chars@.subrange(0, 0) =~= Seq::<char>::empty());
    }
    while ch < S
        invariant
            ch <= S,
            chars@.len() == S,
            max == max_utf8_len(chars@.subrange(0, ch as int)),
            max <= 4,
            ch > 0 ==> max >= 1,
        decreases S - ch,
    {
        let (_, len) = utf8_of(chars[ch]);
        proof {
            let pre = chars@.subrange(0, ch + 1);
            assert(pre.drop_last() =~= chars@.subrange(0, ch as int));
            assert(pre.last() == chars@[ch as int]);
            lemma_encode_utf8_len(seq![chars@[ch as int]]);
        }
        if len > max {
            max = len;
        }
        ch = ch + 1;
    }
    proof {
        assert(chars@.subrange(0, S as int) =~= chars@);
    }
    max
}

} // verus!
