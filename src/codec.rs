use crate::digits::{
    be_val, digits_below, lemma_be_val_bound, lemma_be_val_push, lemma_to_be, lemma_to_be_len_le,
    mul_add_suffix, suffix, to_be,
};
use crate::model::{
    accumulate, ascii_alphabet, ascii_bytes, decode_spec, encode_spec, find_unit,
    lemma_accumulate_err, lemma_find_unit_bounds, lemma_index_in_bound, lut_of, skip_run, written,
};
use crate::util::{encoded_size, encoded_size_spec, lemma_encoded_size_suffices};
use crate::DecodeError;
use vstd::arithmetic::power::lemma_pow_increases;
use vstd::prelude::*;

verus! {

/// Sets every cell of `buf` to zero.
pub fn zero_fill(buf: &mut [u8])
    ensures
        final(buf)@.len() == old(buf)@.len(),
        forall|j: int| 0 <= j < final(buf)@.len() ==> final(buf)@[j] == 0,
{
    let n = buf.len();
    let mut k: usize = 0;
    while k < n
        invariant
            k <= n,
            buf@.len() == n,
            forall|j: int| 0 <= j < k ==> buf@[j] == 0,
        decreases n - k,
    {
        buf[k] = 0;
        k = k + 1;
    }
}

/// Moves the number held in the last `len` cells of `buf` to start at cell `zeros`; the cells
/// before it must be zero and stay so.
pub fn move_to_front(buf: &mut [u8], zeros: usize, len: usize)
    requires
        zeros + len <= old(buf)@.len(),
        forall|j: int| 0 <= j < zeros ==> old(buf)@[j] == 0,
    ensures
        final(buf)@.len() == old(buf)@.len(),
        final(buf)@.subrange(0, zeros + len) == Seq::new(zeros as nat, |i: int| 0u8) + suffix(
            old(buf)@,
            len as int,
        ),
{
    let ghost snap = buf@;
    let cap = buf.len();
    let mut k: usize = 0;
    while k < len
        invariant
            snap == old(buf)@,
            cap == snap.len(),
            buf@.len() == cap,
            zeros + len <= cap,
            k <= len,
            forall|j: int| 0 <= j < zeros ==> buf@[j] == 0,
            forall|j: int| 0 <= j < k ==> #[trigger] buf@[zeros + j] == snap[cap - len + j],
            forall|j: int| cap - len + k <= j < cap ==> buf@[j] == snap[j],
        decreases len - k,
    {
        let x = buf[cap - len + k];
        buf[zeros + k] = x;
        k = k + 1;
    }
    let ghost want = Seq::new(zeros as nat, |i: int| 0u8) + suffix(snap, len as int);
    assert forall|j: int| 0 <= j < zeros + len implies buf@[j] == want[j] by {
        if j >= zeros {
            let t = j - zeros;
            assert(buf@[zeros + t] == snap[cap - len + t]);
        }
    }
    assert(buf@.subrange(0, zeros + len) =~= want);
}

/// Decodes the ASCII text `input`, written in the alphabet `alphabet` whose lookup table is `lut`,
/// into `buf`: on success the decoded bytes stand at the front of `buf` and their count is
/// returned.
#[verifier::loop_isolation(false)]
pub fn decode_into(alphabet: &[u8], lut: &[i8; 256], input: &[u8], buf: &mut [u8]) -> (r: Result<
    usize,
    DecodeError,
>)
    requires
        ascii_alphabet(alphabet@),
        lut_of(lut@, alphabet@),
    ensures
        final(buf)@.len() == old(buf)@.len(),
        written(decode_spec(alphabet@, input@, old(buf)@.len() as nat), r, final(buf)@),
{
    let ghost a = alphabet@;
    let ghost s = input@;
    let cap = buf.len();
    let base = alphabet.len();
    zero_fill(buf);
    let n = input.len();
    let mut k: usize = 0;
    while k < n
        invariant
            k <= n,
            n == s.len(),
            s == input@,
            forall|j: int| 0 <= j < k ==> s[j] < 128,
        decreases n - k,
    {
        if input[k] >= 128 {
            return Err(DecodeError::InvalidChar);
        }
        k = k + 1;
    }
    assert(ascii_bytes(s));
    let zero_sym = alphabet[0];
    let mut i: usize = 0;
    while i < n && input[i] == 32
        invariant
            i <= n,
            n == s.len(),
            s == input@,
            skip_run(s, 0, 32u8) == skip_run(s, i as int, 32u8),
        decreases n - i,
    {
        i = i + 1;
    }
    let p = i;
    while i < n && input[i] == zero_sym
        invariant
            p <= i <= n,
            n == s.len(),
            s == input@,
            zero_sym == a[0],
            skip_run(s, p as int, zero_sym) == skip_run(s, i as int, zero_sym),
        decreases n - i,
    {
        i = i + 1;
    }
    let zeros = i - p;
    if zeros > cap {
        return Err(DecodeError::InvalidLength(zeros));
    }
    let q = i;
    let room = cap - zeros;
    let mut length: usize = 0;
    let ghost mut v: nat = 0;
    proof {
        assert(s.subrange(q as int, q as int) =~= Seq::<u8>::empty());
        assert(suffix(buf@, 0) =~= Seq::<u8>::empty());
    }
    while i < n && input[i] != 32
        invariant
            q <= i <= n,
            n == s.len(),
            s == input@,
            a == alphabet@,
            base == a.len(),
            ascii_alphabet(a),
            lut_of(lut@, a),
            zeros + room == cap,
            buf@.len() == cap,
            find_unit(s, q as int, 32u8) == find_unit(s, i as int, 32u8),
            accumulate(a, s.subrange(q as int, i as int), zeros as nat, cap as nat) == Ok::<
                nat,
                DecodeError,
            >(v),
            length <= room,
            suffix(buf@, length as int) == to_be(v, 256),
            forall|j: int| 0 <= j < cap - length ==> buf@[j] == 0,
        decreases n - i,
    {
        let ghost d = s.subrange(q as int, i + 1);
        proof {
            assert(d.drop_last() =~= s.subrange(q as int, i as int));
            assert(d.last() == s[i as int]);
        }
        let x = lut[input[i] as usize];
        proof {
            lemma_find_unit_bounds(s, i + 1, 32u8);
        }
        if x < 0 {
            proof {
                let e = find_unit(s, q as int, 32u8);
                assert(s.subrange(q as int, e).subrange(0, i + 1 - q) =~= d);
                lemma_accumulate_err(a, s.subrange(q as int, e), i + 1 - q, zeros as nat, cap as nat);
            }
            return Err(DecodeError::InvalidChar);
        }
        proof {
            lemma_index_in_bound(a, s[i as int]);
            lemma_to_be(v, 256);
        }
        match mul_add_suffix(buf, length, room, 256, base, x as usize) {
            Ok(l) => {
                length = l;
                proof {
                    v = (v * base + x) as nat;
                }
            },
            Err(more) => {
                let need = cap.saturating_add(more);
                proof {
                    let e = find_unit(s, q as int, 32u8);
                    assert(s.subrange(q as int, e).subrange(0, i + 1 - q) =~= d);
                    lemma_accumulate_err(
                        a,
                        s.subrange(q as int, e),
                        i + 1 - q,
                        zeros as nat,
                        cap as nat,
                    );
                }
                return Err(DecodeError::InvalidLength(need));
            },
        }
        i = i + 1;
    }
    let e = i;
    proof {
        assert(find_unit(s, e as int, 32u8) == e);
    }
    while i < n
        invariant
            e <= i <= n,
            n == s.len(),
            s == input@,
            skip_run(s, e as int, 32u8) == skip_run(s, i as int, 32u8),
        decreases n - i,
    {
        if input[i] != 32 {
            return Err(DecodeError::CharAfterTrailingSpaces);
        }
        i = i + 1;
    }
    move_to_front(buf, zeros, length);
    proof {
        lemma_to_be(v, 256);
    }
    Ok(zeros + length)
}

/// The part of encoding that does not depend on the kind of symbol: counts the leading zero bytes,
/// checks the estimate of [`encoded_size`] for the other bytes against `buf`, and converts those
/// bytes to the shortest digits of `base`, which it leaves as values in the last cells of `buf`.
/// Returns the count of leading zero bytes and the count of digits.
#[verifier::loop_isolation(false)]
pub fn encode_digits(base: usize, input: &[u8], buf: &mut [u8]) -> (r: Result<
    (usize, usize),
    DecodeError,
>)
    requires
        2 <= base <= 256,
    ensures
        final(buf)@.len() == old(buf)@.len(),
        ({
            let b = input@;
            let cap = old(buf)@.len();
            let z = skip_run(b, 0, 0u8);
            let rest = b.subrange(z, b.len() as int);
            let size = encoded_size_spec(base as nat, rest.len());
            match r {
                Err(e) => (size > cap || size == usize::MAX) && e == DecodeError::InvalidLength(
                    size,
                ),
                Ok((zeros, len)) => {
                    &&& !(size > cap || size == usize::MAX)
                    &&& zeros == z
                    &&& len <= cap
                    &&& suffix(final(buf)@, len as int) == to_be(be_val(rest, 256), base as nat)
                    &&& forall|j: int| 0 <= j < cap - len ==> final(buf)@[j] == 0
                },
            }
        }),
{
    let ghost b = input@;
    let cap = buf.len();
    zero_fill(buf);
    let n = input.len();
    let mut z: usize = 0;
    while z < n && input[z] == 0
        invariant
            z <= n,
            skip_run(b, 0, 0u8) == skip_run(b, z as int, 0u8),
        decreases n - z,
    {
        z = z + 1;
    }
    let size = encoded_size(base, n - z);
    if size > cap || size == usize::MAX {
        return Err(DecodeError::InvalidLength(size));
    }
    proof {
        lemma_encoded_size_suffices(base as nat, (n - z) as nat);
        lemma_pow_increases(base as nat, size as nat, cap as nat);
        assert(b.subrange(z as int, z as int) =~= Seq::<u8>::empty());
        assert(suffix(buf@, 0) =~= Seq::<u8>::empty());
    }
    let mut length: usize = 0;
    let ghost mut v: nat = 0;
    let mut j: usize = z;
    while j < n
        invariant
            z <= j <= n,
            buf@.len() == cap,
            v == be_val(b.subrange(z as int, j as int), 256),
            length <= cap,
            suffix(buf@, length as int) == to_be(v, base as nat),
            forall|k: int| 0 <= k < cap - length ==> buf@[k] == 0,
        decreases n - j,
    {
        let ghost w = (v * 256 + input[j as int]) as nat;
        proof {
            let d = b.subrange(z as int, j + 1);
            assert(d =~= b.subrange(z as int, j as int).push(input[j as int]));
            lemma_be_val_push(b.subrange(z as int, j as int), input[j as int], 256);
            assert(digits_below(d, 256));
            lemma_be_val_bound(d, 256);
            lemma_pow_increases(256, d.len(), (n - z) as nat);
            lemma_to_be_len_le(w, cap as nat, base as nat);
            lemma_to_be(v, base as nat);
        }
        match mul_add_suffix(buf, length, cap, base, 256, input[j] as usize) {
            Ok(l) => {
                length = l;
            },
            Err(more) => {
                proof {
                    assert(false);
                }
                return Err(DecodeError::InvalidLength(size));
            },
        }
        proof {
            v = w;
        }
        j = j + 1;
    }
    proof {
        assert(b.subrange(z as int, n as int) == b.subrange(skip_run(b, 0, 0u8), b.len() as int));
    }
    Ok((z, length))
}

/// Encodes the bytes `input` with the symbols of `alphabet` into `buf`: on success the symbols
/// stand at the front of `buf` and their count is returned.
#[verifier::loop_isolation(false)]
pub fn encode_into(alphabet: &[u8], input: &[u8], buf: &mut [u8]) -> (r: Result<usize, DecodeError>)
    requires
        ascii_alphabet(alphabet@),
    ensures
        final(buf)@.len() == old(buf)@.len(),
        written(encode_spec(alphabet@, input@, old(buf)@.len() as nat), r, final(buf)@),
{
    let ghost a = alphabet@;
    let ghost b = input@;
    let cap = buf.len();
    let base = alphabet.len();
    let (z, length) = match encode_digits(base, input, buf) {
        Ok(p) => p,
        Err(e) => {
            return Err(e);
        },
    };
    let ghost v = be_val(b.subrange(z as int, b.len() as int), 256);
    if z > cap - length {
        return Err(DecodeError::InvalidLength(z.saturating_add(length)));
    }
    let ghost digits = to_be(v, base as nat);
    proof {
        lemma_to_be(v, base as nat);
    }
    move_to_front(buf, z, length);
    let total = z + length;
    let ghost placed = buf@.subrange(0, total as int);
    let ghost want = Seq::new(z as nat, |i: int| a[0]) + digits.map_values(|d: u8| a[d as int]);
    let mut k: usize = 0;
    while k < total
        invariant
            k <= total <= cap,
            buf@.len() == cap,
            placed == Seq::new(z as nat, |i: int| 0u8) + digits,
            digits_below(digits, base as nat),
            forall|i: int| 0 <= i < k ==> buf@[i] == want[i],
            forall|i: int| k <= i < total ==> buf@[i] == placed[i],
        decreases total - k,
    {
        let d = buf[k];
        proof {
            assert(d == placed[k as int]);
            if k >= z {
                assert(placed[k as int] == digits[k - z]);
                assert(d < base);
                assert(want[k as int] == a[d as int]);
            } else {
                assert(d == 0);
                assert(want[k as int] == a[0]);
            }
        }
        buf[k] = alphabet[d as usize];
        k = k + 1;
    }
    assert(buf@.subrange(0, total as int) =~= want);
    Ok(total)
}

} // verus!
