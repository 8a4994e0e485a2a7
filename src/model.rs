use crate::digits::{be_val, to_be};
use crate::util::encoded_size_spec;
use crate::DecodeError;
use vstd::prelude::*;

verus! {

/// `n` as a `usize`, saturated at `usize::MAX`.
pub open spec fn sat(n: nat) -> usize {
    if n > usize::MAX {
        usize::MAX
    } else {
        n as usize
    }
}

/// Index of the first unit at or after `i` that is not `u` (the length if there is none).
pub open spec fn skip_run<T>(s: Seq<T>, i: int, u: T) -> int
    decreases s.len() - i,
{
    if 0 <= i < s.len() && s[i] == u {
        skip_run(s, i + 1, u)
    } else {
        i
    }
}

/// Index of the first unit at or after `i` that is `u` (the length if there is none).
pub open spec fn find_unit<T>(s: Seq<T>, i: int, u: T) -> int
    decreases s.len() - i,
{
    if 0 <= i < s.len() && s[i] != u {
        find_unit(s, i + 1, u)
    } else {
        i
    }
}

/// No symbol occurs twice.
pub open spec fn distinct<T>(a: Seq<T>) -> bool {
    forall|i: int, j: int| 0 <= i < j < a.len() ==> a[i] != a[j]
}

/// The numeral value of the unit `u` in alphabet `a`: its index, if it is a symbol of `a`.
pub open spec fn index_in<T>(a: Seq<T>, u: T) -> Option<nat> {
    if exists|i: int| 0 <= i < a.len() && a[i] == u {
        Some((choose|i: int| 0 <= i < a.len() && a[i] == u) as nat)
    } else {
        None
    }
}

/// Every byte is ASCII.
pub open spec fn ascii_bytes(s: Seq<u8>) -> bool {
    forall|i: int| 0 <= i < s.len() ==> s[i] < 128
}

/// An alphabet of single-byte symbols: 2 to 128 distinct ASCII symbols, none of them a space.
pub open spec fn ascii_alphabet(a: Seq<u8>) -> bool {
    &&& 2 <= a.len() <= 128
    &&& distinct(a)
    &&& forall|i: int| 0 <= i < a.len() ==> a[i] < 128 && a[i] != 32
}

/// Reads the digit units `d` left to right into one number in base `a.len()`. After each unit
/// the number, as bytes, plus the `zeros` leading zero bytes must fit in `cap` bytes.
pub open spec fn accumulate<T>(a: Seq<T>, d: Seq<T>, zeros: nat, cap: nat) -> Result<
    nat,
    DecodeError,
>
    decreases d.len(),
{
    if d.len() == 0 {
        Ok(0)
    } else {
        match accumulate(a, d.drop_last(), zeros, cap) {
            Err(e) => Err(e),
            Ok(v) => match index_in(a, d.last()) {
                None => Err(DecodeError::InvalidChar),
                Some(x) => {
                    let w = v * a.len() + x;
                    let need = zeros + to_be(w, 256).len();
                    if need > cap {
                        Err(DecodeError::InvalidLength(sat(need)))
                    } else {
                        Ok(w)
                    }
                },
            },
        }
    }
}

/// Decoding of the units `s` into at most `cap` bytes: leading spaces are skipped, each leading
/// zero symbol `a[0]` stands for one zero byte, the units up to the next space are the digits of
/// a big-endian number in base `a.len()`, and only spaces may follow them.
pub open spec fn decode_units<T>(a: Seq<T>, s: Seq<T>, space: T, cap: nat) -> Result<
    Seq<u8>,
    DecodeError,
> {
    let p = skip_run(s, 0, space);
    let q = skip_run(s, p, a[0]);
    let zeros = (q - p) as nat;
    if zeros > cap {
        Err(DecodeError::InvalidLength(sat(zeros)))
    } else {
        let e = find_unit(s, q, space);
        match accumulate(a, s.subrange(q, e), zeros, cap) {
            Err(err) => Err(err),
            Ok(v) => if skip_run(s, e, space) < s.len() {
                Err(DecodeError::CharAfterTrailingSpaces)
            } else {
                Ok(Seq::new(zeros, |i: int| 0u8) + to_be(v, 256))
            },
        }
    }
}

/// Decoding of ASCII text `s` in alphabet `a` into at most `cap` bytes.
pub open spec fn decode_spec(a: Seq<u8>, s: Seq<u8>, cap: nat) -> Result<Seq<u8>, DecodeError> {
    if !ascii_bytes(s) {
        Err(DecodeError::InvalidChar)
    } else {
        decode_units(a, s, 32u8, cap)
    }
}

/// The symbols of an encoding: `zeros` zero symbols, then the symbol of each digit.
pub open spec fn symbols<T>(a: Seq<T>, zeros: nat, digits: Seq<u8>) -> Seq<T> {
    Seq::new(zeros, |i: int| a[0]) + digits.map_values(|d: u8| a[d as int])
}

/// The symbols that encode the bytes `b` in alphabet `a`: one zero symbol for each leading zero
/// byte, then the shortest digits of base `a.len()` of the number that the other bytes make.
pub open spec fn encoded_symbols<T>(a: Seq<T>, b: Seq<u8>) -> Seq<T> {
    let z = skip_run(b, 0, 0u8);
    symbols(a, z as nat, to_be(be_val(b.subrange(z, b.len() as int), 256), a.len()))
}

/// Encoding of the bytes `b` in alphabet `a` into at most `cap` symbols: each leading zero byte
/// becomes one zero symbol `a[0]`, the other bytes are read as a big-endian number and written
/// with the shortest digits of base `a.len()`. The estimate of [`encoded_size_spec`] for the bytes
/// after the zero run must fit first; at `usize::MAX` the estimate saturates and never fits.
pub open spec fn encode_spec(a: Seq<u8>, b: Seq<u8>, cap: nat) -> Result<Seq<u8>, DecodeError> {
    let z = skip_run(b, 0, 0u8);
    let rest = b.subrange(z, b.len() as int);
    let size = encoded_size_spec(a.len(), rest.len());
    if size > cap || size == usize::MAX {
        Err(DecodeError::InvalidLength(size))
    } else {
        let digits = to_be(be_val(rest, 256), a.len());
        if z + digits.len() > cap {
            Err(DecodeError::InvalidLength(sat((z + digits.len()) as nat)))
        } else {
            Ok(encoded_symbols(a, b))
        }
    }
}

/// `lut` maps each byte to its index in `a`, or to -1 when it is not a symbol of `a`.
pub open spec fn lut_of(lut: Seq<i8>, a: Seq<u8>) -> bool {
    &&& lut.len() == 256
    &&& forall|u: u8|
        #![trigger lut[u as int]]
        lut[u as int] as int == match index_in(a, u) {
            Some(i) => i as int,
            None => -1,
        }
}

/// The call returned what `res` says and, on success, left it at the front of `buf`.
pub open spec fn written(
    res: Result<Seq<u8>, DecodeError>,
    r: Result<usize, DecodeError>,
    buf: Seq<u8>,
) -> bool {
    match res {
        Ok(out) => r == Ok::<usize, DecodeError>(out.len() as usize) && out.len() <= buf.len()
            && buf.subrange(0, out.len() as int) == out,
        Err(e) => r == Err::<usize, DecodeError>(e),
    }
}

/// In a distinct alphabet each symbol resolves to its own index.
pub proof fn lemma_index_in<T>(a: Seq<T>, i: int)
    requires
        distinct(a),
        0 <= i < a.len(),
    ensures
        index_in(a, a[i]) == Some(i as nat),
{
    let j = choose|j: int| 0 <= j < a.len() && a[j] == a[i];
    if j != i {
        if j < i {
            assert(a[j] != a[i]);
        } else {
            assert(a[i] != a[j]);
        }
    }
}

/// A resolved index lies in the alphabet and holds the unit.
pub proof fn lemma_index_in_bound<T>(a: Seq<T>, u: T)
    ensures
        index_in(a, u) matches Some(i) ==> i < a.len() && a[i as int] == u,
{
}

/// `skip_run` stays in bounds, passes only `u`, and stops at a unit other than `u`.
pub proof fn lemma_skip_run_bounds<T>(s: Seq<T>, i: int, u: T)
    requires
        0 <= i <= s.len(),
    ensures
        i <= skip_run(s, i, u) <= s.len(),
        forall|j: int| i <= j < skip_run(s, i, u) ==> s[j] == u,
        skip_run(s, i, u) < s.len() ==> s[skip_run(s, i, u)] != u,
    decreases s.len() - i,
{
    if i < s.len() && s[i] == u {
        lemma_skip_run_bounds(s, i + 1, u);
    }
}

/// `find_unit` stays in bounds, passes no `u`, and stops at a `u`.
pub proof fn lemma_find_unit_bounds<T>(s: Seq<T>, i: int, u: T)
    requires
        0 <= i <= s.len(),
    ensures
        i <= find_unit(s, i, u) <= s.len(),
        forall|j: int| i <= j < find_unit(s, i, u) ==> s[j] != u,
        find_unit(s, i, u) < s.len() ==> s[find_unit(s, i, u)] == u,
    decreases s.len() - i,
{
    if i < s.len() && s[i] != u {
        lemma_find_unit_bounds(s, i + 1, u);
    }
}

/// Once a prefix of the digits fails, the whole run fails the same way.
pub proof fn lemma_accumulate_err<T>(a: Seq<T>, d: Seq<T>, k: int, zeros: nat, cap: nat)
    requires
        0 <= k <= d.len(),
        accumulate(a, d.subrange(0, k), zeros, cap) is Err,
    ensures
        accumulate(a, d, zeros, cap) == accumulate(a, d.subrange(0, k), zeros, cap),
    decreases d.len(),
{
    if k == d.len() {
        assert(d.subrange(0, k) =~= d);
    } else {
        assert(d.drop_last().subrange(0, k) =~= d.subrange(0, k));
        lemma_accumulate_err(a, d.drop_last(), k, zeros, cap);
    }
}

} // verus!
