use crate::digits::{
    be_val, digits_below, lemma_to_be, lemma_to_be_len_le, lemma_to_be_unique, to_be,
};
use crate::model::{
    accumulate, ascii_alphabet, ascii_bytes, decode_spec, decode_units, distinct, encode_spec,
    encoded_symbols, find_unit, lemma_find_unit_bounds, lemma_index_in, lemma_skip_run_bounds, sat,
    skip_run, symbols,
};
use crate::utf_base::{char_alphabet, utf_encode_spec};
use crate::log2::{lemma_log2_lo, log2_lo, span};
use crate::util::encoded_size_spec;
use crate::DecodeError;
use vstd::prelude::*;
use vstd::utf8::{encode_utf8, encode_utf8_decode_utf8};

verus! {

/// Where a run of `u` starts at `i` and stops at `k`, `skip_run` finds `k`.
proof fn lemma_skip_run_exact<T>(s: Seq<T>, i: int, k: int, u: T)
    requires
        0 <= i <= k <= s.len(),
        forall|j: int| i <= j < k ==> s[j] == u,
        k == s.len() || s[k] != u,
    ensures
        skip_run(s, i, u) == k,
    decreases k - i,
{
    if i < k {
        lemma_skip_run_exact(s, i + 1, k, u);
    }
}

/// Where the first `u` at or after `i` stands at `k`, `find_unit` finds `k`.
proof fn lemma_find_unit_exact<T>(s: Seq<T>, i: int, k: int, u: T)
    requires
        0 <= i <= k <= s.len(),
        forall|j: int| i <= j < k ==> s[j] != u,
        k == s.len() || s[k] == u,
    ensures
        find_unit(s, i, u) == k,
    decreases k - i,
{
    if i < k {
        lemma_find_unit_exact(s, i + 1, k, u);
    }
}

/// Fewer or equal values never take more digits.
proof fn lemma_to_be_len_mono(x: nat, y: nat, radix: nat)
    requires
        2 <= radix <= 256,
        x <= y,
    ensures
        to_be(x, radix).len() <= to_be(y, radix).len(),
{
    lemma_to_be(y, radix);
    lemma_to_be_len_le(x, to_be(y, radix).len(), radix);
}

/// An alphabet of units of any kind: 2 to 256 distinct symbols, none of them the space.
pub open spec fn unit_alphabet<T>(a: Seq<T>, space: T) -> bool {
    &&& 2 <= a.len() <= 256
    &&& distinct(a)
    &&& forall|i: int| 0 <= i < a.len() ==> a[i] != space
}

/// Symbols of digits below the base read back as those digits, as long as every step fits.
proof fn lemma_accumulate_symbols<T>(a: Seq<T>, d: Seq<u8>, zeros: nat, cap: nat)
    requires
        2 <= a.len() <= 256,
        distinct(a),
        digits_below(d, a.len()),
        zeros + to_be(be_val(d, a.len()), 256).len() <= cap,
    ensures
        accumulate(a, d.map_values(|x: u8| a[x as int]), zeros, cap) == Ok::<nat, DecodeError>(
            be_val(d, a.len()),
        ),
    decreases d.len(),
{
    let s = d.map_values(|x: u8| a[x as int]);
    if d.len() > 0 {
        let dl = d.drop_last();
        assert(s.drop_last() =~= dl.map_values(|x: u8| a[x as int]));
        assert(digits_below(dl, a.len())) by {
            assert forall|j: int| 0 <= j < dl.len() implies dl[j] < a.len() by {
                assert(dl[j] == d[j]);
            }
        }
        let b = a.len();
        assert(be_val(d, b) == be_val(dl, b) * b + d.last());
        assert(be_val(dl, b) <= be_val(d, b)) by (nonlinear_arith)
            requires
                be_val(d, b) == be_val(dl, b) * b + d.last(),
                b >= 2,
        ;
        lemma_to_be_len_mono(be_val(dl, b), be_val(d, b), 256);
        lemma_accumulate_symbols(a, dl, zeros, cap);
        assert(d.last() < b) by {
            assert(d[d.len() - 1] < b);
        }
        lemma_index_in(a, d.last() as int);
        assert(s.last() == a[d.last() as int]);
    }
}

/// What an encoding looks like from the decoder's side: the zero symbols, then the symbols of the
/// shortest digits of the value, with no space.
proof fn lemma_encoded_shape<T>(a: Seq<T>, space: T, b: Seq<u8>)
    requires
        unit_alphabet(a, space),
    ensures
        ({
            let z = skip_run(b, 0, 0u8);
            let rest = b.subrange(z, b.len() as int);
            let v = be_val(rest, 256);
            let digits = to_be(v, a.len());
            let t = encoded_symbols(a, b);
            &&& 0 <= z <= b.len()
            &&& t == symbols(a, z as nat, digits)
            &&& digits_below(digits, a.len())
            &&& be_val(digits, a.len()) == v
            &&& to_be(v, 256) == rest
            &&& b == Seq::new(z as nat, |i: int| 0u8) + rest
            &&& forall|i: int|
                #![trigger t[i]]
                0 <= i < t.len() ==> exists|j: int| #![trigger a[j]] 0 <= j < a.len() && t[i] == a[j]
            &&& skip_run(t, 0, space) == 0
            &&& skip_run(t, 0, a[0]) == z
            &&& find_unit(t, z, space) == t.len()
            &&& skip_run(t, t.len() as int, space) == t.len()
            &&& t.subrange(z, t.len() as int) == digits.map_values(|d: u8| a[d as int])
        }),
{
    let z = skip_run(b, 0, 0u8);
    lemma_skip_run_bounds(b, 0, 0u8);
    let rest = b.subrange(z, b.len() as int);
    let v = be_val(rest, 256);
    let base = a.len();
    let digits = to_be(v, base);
    let t = encoded_symbols(a, b);
    assert(digits_below(rest, 256));
    if rest.len() > 0 {
        assert(rest[0] == b[z]);
    }
    lemma_to_be_unique(rest, 256);
    lemma_to_be(v, base);
    assert(b =~= Seq::new(z as nat, |i: int| 0u8) + rest);
    let syms = digits.map_values(|d: u8| a[d as int]);
    assert(t == Seq::new(z as nat, |i: int| a[0]) + syms);
    assert forall|i: int| 0 <= i < t.len() implies t[i] != space && (i < z ==> t[i] == a[0]) && (
    exists|j: int| 0 <= j < a.len() && t[i] == a[j]) by {
        if i >= z {
            assert(t[i] == syms[i - z]);
            assert(digits[i - z] < base);
            assert(t[i] == a[digits[i - z] as int]);
        } else {
            assert(t[i] == a[0]);
        }
    }
    lemma_skip_run_exact(t, 0, 0, space);
    if z < t.len() {
        assert(t[z] == a[digits[0] as int]);
        assert(digits[0] < base);
        assert(t[z] != a[0]);
    }
    lemma_skip_run_exact(t, 0, z, a[0]);
    lemma_find_unit_exact(t, z, t.len() as int, space);
    lemma_skip_run_exact(t, t.len() as int, t.len() as int, space);
    assert(t.subrange(z, t.len() as int) =~= syms);
}

/// The symbols of an encoding decode back to the bytes, given room for as many bytes.
proof fn lemma_decode_symbols<T>(a: Seq<T>, space: T, b: Seq<u8>, cap: nat)
    requires
        unit_alphabet(a, space),
        cap >= b.len(),
    ensures
        decode_units(a, encoded_symbols(a, b), space, cap) == Ok::<Seq<u8>, DecodeError>(b),
{
    lemma_encoded_shape(a, space, b);
    let z = skip_run(b, 0, 0u8);
    let rest = b.subrange(z, b.len() as int);
    let digits = to_be(be_val(rest, 256), a.len());
    lemma_accumulate_symbols(a, digits, z as nat, cap);
}

/// Decoding an encoding gives back the bytes, leading zero bytes included, whenever the
/// encoding succeeded and the decoding buffer holds as many bytes as the input.
pub proof fn lemma_round_trip(a: Seq<u8>, b: Seq<u8>, cap_encode: nat, cap_decode: nat)
    requires
        ascii_alphabet(a),
        encode_spec(a, b, cap_encode) is Ok,
        cap_decode >= b.len(),
    ensures
        decode_spec(a, encode_spec(a, b, cap_encode)->Ok_0, cap_decode) == Ok::<
            Seq<u8>,
            DecodeError,
        >(b),
{
    lemma_encoded_shape(a, 32u8, b);
    lemma_decode_symbols(a, 32u8, b, cap_decode);
    let t = encoded_symbols(a, b);
    assert forall|i: int| 0 <= i < t.len() implies t[i] < 128 by {
        let j = choose|j: int| 0 <= j < a.len() && t[i] == a[j];
    }
}

/// An encoding starts with exactly as many zero symbols as the bytes start with zero bytes.
pub proof fn lemma_leading_zeros(a: Seq<u8>, b: Seq<u8>, cap: nat)
    requires
        ascii_alphabet(a),
        encode_spec(a, b, cap) is Ok,
    ensures
        skip_run(encode_spec(a, b, cap)->Ok_0, 0, a[0]) == skip_run(b, 0, 0u8),
{
    lemma_encoded_shape(a, 32u8, b);
}

/// Decoding the UTF-8 text of an encoding in a character alphabet gives back the bytes,
/// whenever the encoding succeeded and the decoding buffer holds as many bytes as the input.
pub proof fn lemma_utf_round_trip(
    a: Seq<char>,
    b: Seq<u8>,
    text: Seq<char>,
    cap_encode: nat,
    cap_decode: nat,
)
    requires
        char_alphabet(a),
        utf_encode_spec(a, b, cap_encode) is Ok,
        encode_utf8(text) == utf_encode_spec(a, b, cap_encode)->Ok_0,
        cap_decode >= b.len(),
    ensures
        decode_units(a, text, ' ', cap_decode) == Ok::<Seq<u8>, DecodeError>(b),
        skip_run(text, 0, a[0]) == skip_run(b, 0, 0u8),
{
    let t = encoded_symbols(a, b);
    encode_utf8_decode_utf8(text);
    encode_utf8_decode_utf8(t);
    assert(text == t);
    lemma_encoded_shape(a, ' ', b);
    lemma_decode_symbols(a, ' ', b, cap_decode);
}

/// Empty text decodes to no bytes, whatever the buffer.
pub proof fn lemma_decode_empty(a: Seq<u8>, cap: nat)
    requires
        ascii_alphabet(a),
    ensures
        decode_spec(a, Seq::empty(), cap) == Ok::<Seq<u8>, DecodeError>(Seq::empty()),
{
    let s = Seq::<u8>::empty();
    assert(accumulate(a, s.subrange(0, 0), 0, cap) == Ok::<nat, DecodeError>(0));
    assert(to_be(0, 256) =~= Seq::<u8>::empty());
    assert(Seq::new(0, |i: int| 0u8) + Seq::<u8>::empty() =~= Seq::<u8>::empty());
}

/// No bytes encode to no symbols, given room for the one symbol that the estimate asks for.
pub proof fn lemma_encode_empty(a: Seq<u8>, cap: nat)
    requires
        ascii_alphabet(a),
        cap >= 1,
    ensures
        encode_spec(a, Seq::empty(), cap) == Ok::<Seq<u8>, DecodeError>(Seq::empty()),
{
    let b = Seq::<u8>::empty();
    lemma_log2_lo(a.len());
    let lo = log2_lo(a.len());
    assert(0nat * (8 * span()) / lo == 0) by (nonlinear_arith)
        requires
            lo >= 1,
    ;
    assert(encoded_size_spec(a.len(), 0) == 1);
    assert(b.subrange(0, 0) =~= Seq::<u8>::empty());
    assert(to_be(0, a.len()) =~= Seq::<u8>::empty());
    assert(Seq::new(0, |i: int| a[0]) + Seq::<u8>::empty().map_values(|d: u8| a[d as int])
        =~= Seq::<u8>::empty());
}

/// Text that is only spaces decodes to no bytes.
proof fn lemma_decode_blank<T>(a: Seq<T>, s: Seq<T>, space: T, cap: nat)
    requires
        a.len() > 0,
        a[0] != space,
        forall|j: int| 0 <= j < s.len() ==> s[j] == space,
    ensures
        decode_units(a, s, space, cap) == Ok::<Seq<u8>, DecodeError>(Seq::empty()),
{
    let n = s.len() as int;
    lemma_skip_run_exact(s, 0, n, space);
    lemma_skip_run_exact(s, n, n, a[0]);
    lemma_find_unit_exact(s, n, n, space);
    lemma_skip_run_exact(s, n, n, space);
    assert(s.subrange(n, n) =~= Seq::<T>::empty());
    assert(accumulate(a, s.subrange(n, n), 0, cap) == Ok::<nat, DecodeError>(0));
    assert(to_be(0, 256) =~= Seq::<u8>::empty());
    assert(Seq::new(0, |i: int| 0u8) + Seq::<u8>::empty() =~= Seq::<u8>::empty());
}

/// Spaces before and after the text change nothing: the text decodes as without them.
pub proof fn lemma_padding_units<T>(a: Seq<T>, t: Seq<T>, space: T, before: nat, after: nat, cap: nat)
    requires
        a.len() > 0,
        a[0] != space,
    ensures
        decode_units(
            a,
            Seq::new(before, |i: int| space) + t + Seq::new(after, |i: int| space),
            space,
            cap,
        ) == decode_units(a, t, space, cap),
{
    let k = before as int;
    let n = t.len() as int;
    let s = Seq::new(before, |i: int| space) + t + Seq::new(after, |i: int| space);
    let m = s.len() as int;
    assert(m == k + n + after);
    assert forall|j: int| 0 <= j < n implies s[k + j] == t[j] by {}
    assert forall|j: int| 0 <= j < k implies s[j] == space by {}
    assert forall|j: int| k + n <= j < m implies s[j] == space by {}
    let p = skip_run(t, 0, space);
    lemma_skip_run_bounds(t, 0, space);
    if p == n {
        lemma_decode_blank(a, t, space, cap);
        lemma_decode_blank(a, s, space, cap);
    } else {
        lemma_skip_run_exact(s, 0, k + p, space);
        let q = skip_run(t, p, a[0]);
        lemma_skip_run_bounds(t, p, a[0]);
        lemma_skip_run_exact(s, k + p, k + q, a[0]);
        let e = find_unit(t, q, space);
        lemma_find_unit_bounds(t, q, space);
        lemma_find_unit_exact(s, k + q, k + e, space);
        assert(s.subrange(k + q, k + e) =~= t.subrange(q, e));
        let r = skip_run(t, e, space);
        lemma_skip_run_bounds(t, e, space);
        if r < n {
            lemma_skip_run_exact(s, k + e, k + r, space);
        } else {
            lemma_skip_run_exact(s, k + e, m, space);
        }
    }
}

/// Spaces before and after ASCII text change nothing: it decodes as without them.
pub proof fn lemma_padding(a: Seq<u8>, t: Seq<u8>, before: nat, after: nat, cap: nat)
    requires
        ascii_alphabet(a),
    ensures
        decode_spec(a, Seq::new(before, |i: int| 32u8) + t + Seq::new(after, |i: int| 32u8), cap)
            == decode_spec(a, t, cap),
{
    let s = Seq::new(before, |i: int| 32u8) + t + Seq::new(after, |i: int| 32u8);
    let k = before as int;
    assert forall|j: int| 0 <= j < t.len() implies s[k + j] == t[j] by {}
    if ascii_bytes(t) {
        assert forall|j: int| 0 <= j < s.len() implies s[j] < 128 by {
            if k <= j < k + t.len() {
                assert(s[j] == t[j - k]);
            }
        }
    } else {
        let j = choose|j: int| 0 <= j < t.len() && !(t[j] < 128);
        assert(s[k + j] == t[j]);
    }
    lemma_padding_units(a, t, 32u8, before, after, cap);
}

/// Text with a byte outside ASCII is refused as holding an invalid character, whatever the
/// buffer.
pub proof fn lemma_non_ascii_refused(a: Seq<u8>, s: Seq<u8>, i: int, cap: nat)
    requires
        0 <= i < s.len(),
        s[i] >= 128,
    ensures
        decode_spec(a, s, cap) == Err::<Seq<u8>, DecodeError>(DecodeError::InvalidChar),
{
}

/// More leading zero symbols than the buffer holds are refused with their count.
pub proof fn lemma_zero_run_too_long(a: Seq<u8>, s: Seq<u8>, cap: nat)
    requires
        ascii_alphabet(a),
        ascii_bytes(s),
        skip_run(s, skip_run(s, 0, 32u8), a[0]) - skip_run(s, 0, 32u8) > cap,
    ensures
        decode_spec(a, s, cap) == Err::<Seq<u8>, DecodeError>(
            DecodeError::InvalidLength(
                sat((skip_run(s, skip_run(s, 0, 32u8), a[0]) - skip_run(s, 0, 32u8)) as nat),
            ),
        ),
{
    lemma_skip_run_bounds(s, 0, 32u8);
    lemma_skip_run_bounds(s, skip_run(s, 0, 32u8), a[0]);
}

/// With less room, digits that were read succeed the same way or fail for want of room, and they
/// fail whenever their bytes no longer fit.
proof fn lemma_accumulate_less_room<T>(a: Seq<T>, d: Seq<T>, zeros: nat, cap: nat, less: nat)
    requires
        accumulate(a, d, zeros, cap) is Ok,
        zeros <= less,
    ensures
        ({
            let v = accumulate(a, d, zeros, cap)->Ok_0;
            let r = accumulate(a, d, zeros, less);
            &&& r is Ok ==> r == Ok::<nat, DecodeError>(v)
            &&& r is Err ==> r->Err_0 is InvalidLength
            &&& zeros + to_be(v, 256).len() > less ==> r is Err
        }),
    decreases d.len(),
{
    if d.len() == 0 {
        assert(to_be(0, 256) =~= Seq::<u8>::empty());
    } else {
        lemma_accumulate_less_room(a, d.drop_last(), zeros, cap, less);
    }
}

/// A buffer shorter than what the text decodes to is refused for its length.
pub proof fn lemma_buffer_too_small(a: Seq<u8>, s: Seq<u8>, cap: nat, less: nat)
    requires
        ascii_alphabet(a),
        decode_spec(a, s, cap) is Ok,
        less < (decode_spec(a, s, cap)->Ok_0).len(),
    ensures
        decode_spec(a, s, less) is Err,
        decode_spec(a, s, less)->Err_0 is InvalidLength,
{
    let p = skip_run(s, 0, 32u8);
    let q = skip_run(s, p, a[0]);
    let zeros = (q - p) as nat;
    if zeros <= less {
        let e = find_unit(s, q, 32u8);
        lemma_accumulate_less_room(a, s.subrange(q, e), zeros, cap, less);
    }
}

} // verus!
