use crate::base::Base;
use crate::codec::{encode_digits, move_to_front, zero_fill};
use crate::digits::{be_val, digits_below, lemma_to_be, mul_add_suffix, suffix, to_be};
use crate::model::{
    accumulate, decode_units, distinct, encoded_symbols, find_unit, index_in, lemma_accumulate_err,
    lemma_find_unit_bounds, lemma_index_in, lemma_index_in_bound, sat, skip_run, symbols, written,
};
use crate::util::{ascii_to_char_arr, encoded_size_spec, max_utf8_char_len, max_utf8_len, utf8_of};
use crate::DecodeError;
use vstd::prelude::*;
use vstd::string::StrSliceExecFns;
use vstd::utf8::{char_u32_cast, encode_utf8};

verus! {

/// An alphabet of characters: 2 to 256 distinct characters, none of them a space.
pub open spec fn char_alphabet(a: Seq<char>) -> bool {
    &&& 2 <= a.len() <= 256
    &&& distinct(a)
    &&& forall|i: int| 0 <= i < a.len() ==> a[i] != ' '
}

/// Encoding of the bytes `b` in the character alphabet `a` as UTF-8 text of at most `cap` bytes:
/// the symbols are those of the byte encoding, the estimate for the bytes after the zero run must
/// fit first, then the text itself.
pub open spec fn utf_encode_spec(a: Seq<char>, b: Seq<u8>, cap: nat) -> Result<
    Seq<u8>,
    DecodeError,
> {
    let z = skip_run(b, 0, 0u8);
    let rest = b.subrange(z, b.len() as int);
    let size = encoded_size_spec(a.len(), rest.len());
    if size > cap || size == usize::MAX {
        Err(DecodeError::InvalidLength(size))
    } else {
        let digits = to_be(be_val(rest, 256), a.len());
        let text = encode_utf8(encoded_symbols(a, b));
        if text.len() > cap {
            Err(DecodeError::InvalidLength(sat(text.len())))
        } else {
            Ok(text)
        }
    }
}

/// The UTF-8 text of two runs of characters is the text of the first, then of the second.
pub proof fn lemma_encode_utf8_concat(s1: Seq<char>, s2: Seq<char>)
    ensures
        encode_utf8(s1 + s2) == encode_utf8(s1) + encode_utf8(s2),
    decreases s1.len(),
{
    if s1.len() == 0 {
        assert(s1 + s2 =~= s2);
        assert(encode_utf8(s1) + encode_utf8(s2) =~= encode_utf8(s2));
    } else {
        assert((s1 + s2).drop_first() =~= s1.drop_first() + s2);
        lemma_encode_utf8_concat(s1.drop_first(), s2);
        assert((s1 + s2)[0] == s1[0]);
        assert(encode_utf8(s1 + s2) =~= encode_utf8(s1) + encode_utf8(s2));
    }
}

/// Each character takes one to four bytes.
pub proof fn lemma_encode_utf8_len(s: Seq<char>)
    ensures
        s.len() <= encode_utf8(s).len() <= 4 * s.len(),
    decreases s.len(),
{
    if s.len() > 0 {
        lemma_encode_utf8_len(s.drop_first());
    }
}

/// A numeral system whose symbols are characters. Its text is UTF-8; decoding reads it character
/// by character, encoding writes each symbol's UTF-8 bytes.
pub trait UtfBase<const BASE: usize> {
    /// The symbols, in the order of their values.
    spec fn spec_char_alphabet() -> Seq<char>;

    /// The alphabet is well formed and has `BASE` symbols.
    proof fn lemma_char_alphabet()
        ensures
            char_alphabet(Self::spec_char_alphabet()),
            Self::spec_char_alphabet().len() == BASE,
    ;

    /// The symbols, in the order of their values.
    fn char_alphabet() -> (r: [char; BASE])
        ensures
            r@ == Self::spec_char_alphabet(),
    ;

    /// The value of the symbol `ch`, if it is one.
    fn lookup_char(ch: char) -> (r: Option<usize>)
        ensures
            r == match index_in(Self::spec_char_alphabet(), ch) {
                Some(i) => Some(i as usize),
                None => None::<usize>,
            },
    ;

    /// The length in bytes of the longest symbol's UTF-8 form, from 1 to 4.
    fn max_char_len() -> (r: u8)
        ensures
            r as nat == max_utf8_len(Self::spec_char_alphabet()),
            1 <= r <= 4,
    {
        proof {
            Self::lemma_char_alphabet();
        }
        max_utf8_char_len(Self::char_alphabet()) as u8
    }

    /// Decodes the text `input` into `buf` and returns the number of bytes written at its front.
    /// The buffer is cleared first; after an error it holds partial state. Characters are read by
    /// index, which walks the text each time: the cost grows with the square of its length, as
    /// that of the conversion does.
    #[verifier::loop_isolation(false)]
    fn utf_decode_mut(input: &str, buf: &mut [u8]) -> (r: Result<usize, DecodeError>)
        ensures
            final(buf)@.len() == old(buf)@.len(),
            written(
                decode_units(Self::spec_char_alphabet(), input@, ' ', old(buf)@.len() as nat),
                r,
                final(buf)@,
            ),
    {
        let ghost a = Self::spec_char_alphabet();
        let ghost s = input@;
        proof {
            Self::lemma_char_alphabet();
        }
        let alphabet = Self::char_alphabet();
        let cap = buf.len();
        zero_fill(buf);
        let n = input.unicode_len();
        let zero_sym = alphabet[0];
        let mut i: usize = 0;
        while i < n && input.get_char(i) == ' '
            invariant
                i <= n,
                skip_run(s, 0, ' ') == skip_run(s, i as int, ' '),
            decreases n - i,
        {
            i = i + 1;
        }
        let p = i;
        while i < n && input.get_char(i) == zero_sym
            invariant
                p <= i <= n,
                skip_run(s, p as int, zero_sym) == skip_run(s, i as int, zero_sym),
            decreases n - i,
        {
            i = i + 1;
        }
        let zeros = i - p;
        if zeros > cap {
            return Err(DecodeError::InvalidLength(zeros));
        }
        let q = i;
        let room = cap - zeros;
        let mut length: usize = 0;
        let ghost mut v: nat = 0;
        proof {
            assert(s.subrange(q as int, q as int) =~= Seq::<char>::empty());
            assert(suffix(buf@, 0) =~= Seq::<u8>::empty());
        }
        while i < n && input.get_char(i) != ' '
            invariant
                q <= i <= n,
                buf@.len() == cap,
                find_unit(s, q as int, ' ') == find_unit(s, i as int, ' '),
                accumulate(a, s.subrange(q as int, i as int), zeros as nat, cap as nat) == Ok::<
                    nat,
                    DecodeError,
                >(v),
                length <= room,
                suffix(buf@, length as int) == to_be(v, 256),
                forall|j: int| 0 <= j < cap - length ==> buf@[j] == 0,
            decreases n - i,
        {
            let ch = input.get_char(i);
            let ghost d = s.subrange(q as int, i + 1);
            proof {
                assert(d.drop_last() =~= s.subrange(q as int, i as int));
                assert(d.last() == s[i as int]);
                lemma_find_unit_bounds(s, i + 1, ' ');
            }
            let x = match Self::lookup_char(ch) {
                Some(x) => x,
                None => {
                    proof {
                        let e = find_unit(s, q as int, ' ');
                        assert(s.subrange(q as int, e).subrange(0, i + 1 - q) =~= d);
                        lemma_accumulate_err(
                            a,
                            s.subrange(q as int, e),
                            i + 1 - q,
                            zeros as nat,
                            cap as nat,
                        );
                    }
                    return Err(DecodeError::InvalidChar);
                },
            };
            proof {
                lemma_index_in_bound(a, ch);
                lemma_to_be(v, 256);
            }
            match mul_add_suffix(buf, length, room, 256, BASE, x) {
                Ok(l) => {
                    length = l;
                    proof {
                        v = (v * BASE + x) as nat;
                    }
                },
                Err(more) => {
                    let need = cap.saturating_add(more);
                    proof {
                        let e = find_unit(s, q as int, ' ');
                        assert(s.subrange(q as int, e).subrange(0, i + 1 - q) =~= d);
                        lemma_accumulate_err(
                            a,
                            s.subrange(q as int, e),
                            i + 1 - q,
                            zeros as nat,
                            cap as nat,
                        );
                    }
                    return Err(DecodeError::InvalidLength(need));
                },
            }
            i = i + 1;
        }
        let e = i;
        proof {
            assert(find_unit(s, e as int, ' ') == e);
        }
        while i < n
            invariant
                e <= i <= n,
                skip_run(s, e as int, ' ') == skip_run(s, i as int, ' '),
            decreases n - i,
        {
            if input.get_char(i) != ' ' {
                return Err(DecodeError::CharAfterTrailingSpaces);
            }
            i = i + 1;
        }
        move_to_front(buf, zeros, length);
        proof {
            lemma_to_be(v, 256);
        }
        Ok(zeros + length)
    }

    /// Encodes the bytes `input` into `buf` as the UTF-8 text of their symbols and returns the
    /// number of bytes written at its front. The buffer is cleared first; after an error it holds
    /// partial state.
    #[verifier::loop_isolation(false)]
    fn utf_encode_mut(input: &[u8], buf: &mut [u8]) -> (r: Result<usize, DecodeError>)
        ensures
            final(buf)@.len() == old(buf)@.len(),
            written(
                utf_encode_spec(Self::spec_char_alphabet(), input@, old(buf)@.len() as nat),
                r,
                final(buf)@,
            ),
    {
        let ghost a = Self::spec_char_alphabet();
        let ghost b = input@;
        proof {
            Self::lemma_char_alphabet();
        }
        let alphabet = Self::char_alphabet();
        let cap = buf.len();
        let (z, length) = match encode_digits(BASE, input, buf) {
            Ok(p) => p,
            Err(e) => {
                return Err(e);
            },
        };
        let ghost v = be_val(b.subrange(z as int, b.len() as int), 256);
        let ghost digits = to_be(v, BASE as nat);
        proof {
            lemma_to_be(v, BASE as nat);
        }
        let total = utf8_total(alphabet.as_slice(), buf, z, length);
        if total > cap as u128 {
            let need = if total > usize::MAX as u128 {
                usize::MAX
            } else {
                total as usize
            };
            return Err(DecodeError::InvalidLength(need));
        }
        proof {
            lemma_encode_utf8_len(symbols(a, z as nat, digits));
        }
        move_to_front(buf, z, length);
        proof {
            assert(buf@.subrange(0, z + length).map_values(|d: u8| a[d as int]) =~= symbols(
                a,
                z as nat,
                digits,
            ));
            let pre = buf@.subrange(0, z + length);
            assert forall|j: int| 0 <= j < pre.len() implies #[trigger] pre[j] < a.len() by {
                if j >= z {
                    assert(pre[j] == digits[j - z]);
                }
            }
            assert(digits_below(pre, a.len()));
        }
        expand_utf8(alphabet.as_slice(), buf, z + length, total as usize);
        Ok(total as usize)
    }
}

/// Every alphabet of ASCII bytes is an alphabet of the same characters.
impl<const BASE: usize, T: Base<BASE>> UtfBase<BASE> for T {
    open spec fn spec_char_alphabet() -> Seq<char> {
        T::spec_alphabet().map_values(|b: u8| b as char)
    }

    proof fn lemma_char_alphabet() {
        T::lemma_alphabet();
        let a = T::spec_alphabet();
        let c = Self::spec_char_alphabet();
        assert forall|i: int, j: int| 0 <= i < j < c.len() implies c[i] != c[j] by {
            assert(a[i] != a[j]);
            assert(c[i] == a[i] as char && c[j] == a[j] as char);
            assert((a[i] as char) as u32 == a[i] as u32);
            assert((a[j] as char) as u32 == a[j] as u32);
        }
        assert forall|i: int| 0 <= i < c.len() implies c[i] != ' ' by {
            assert((a[i] as char) as u32 == a[i] as u32);
        }
    }

    fn char_alphabet() -> (r: [char; BASE]) {
        ascii_to_char_arr(T::alphabet())
    }

    fn lookup_char(ch: char) -> (r: Option<usize>) {
        let code = ch as u32;
        proof {
            T::lemma_alphabet();
        }
        let ghost a = T::spec_alphabet();
        let ghost c = Self::spec_char_alphabet();
        if code < 128 {
            let r = T::lookup_ascii(code as u8);
            proof {
                let b = code as u8;
                assert forall|i: int| 0 <= i < a.len() implies (a[i] == b) == (c[i] == ch) by {
                    assert(c[i] == a[i] as char);
                    assert((a[i] as char) as u32 == a[i] as u32);
                    if a[i] == b {
                        let u = a[i] as u32;
                        assert(u == code);
                        char_u32_cast(a[i] as char, u);
                        char_u32_cast(ch, u);
                    }
                }
                if exists|i: int| 0 <= i < a.len() && a[i] == b {
                    let i = choose|i: int| 0 <= i < a.len() && a[i] == b;
                    lemma_index_in(a, i);
                    lemma_index_in(c, i);
                } else {
                    assert(!exists|i: int| 0 <= i < c.len() && c[i] == ch);
                }
            }
            r
        } else {
            proof {
                assert forall|i: int| 0 <= i < c.len() implies c[i] != ch by {
                    assert(c[i] == a[i] as char);
                    assert((a[i] as char) as u32 == a[i] as u32);
                }
            }
            None
        }
    }
}

/// Length of the UTF-8 text of `zeros` zero symbols followed by the symbols of the digits held in
/// the last `length` cells of `buf`.
#[verifier::loop_isolation(false)]
fn utf8_total(alphabet: &[char], buf: &[u8], zeros: usize, length: usize) -> (t: u128)
    requires
        alphabet@.len() >= 1,
        length <= buf@.len(),
        digits_below(suffix(buf@, length as int), alphabet@.len()),
    ensures
        t == encode_utf8(symbols(alphabet@, zeros as nat, suffix(buf@, length as int))).len(),
{
    let ghost a = alphabet@;
    let ghost digits = suffix(buf@, length as int);
    let ghost syms = symbols(a, zeros as nat, digits);
    let cap = buf.len();
    let count: u128 = zeros as u128 + length as u128;
    let mut total: u128 = 0;
    let mut k: u128 = 0;
    proof {
        assert(syms.subrange(0, 0) =~= Seq::<char>::empty());
    }
    while k < count
        invariant
            k <= count,
            syms.len() == count,
            total == encode_utf8(syms.subrange(0, k as int)).len(),
            total <= 4 * k,
        decreases count - k,
    {
        let d = if k < zeros as u128 {
            0u8
        } else {
            buf[cap - length + (k - zeros as u128) as usize]
        };
        proof {
            if k >= zeros {
                assert(d == digits[k - zeros]);
                assert(digits[k - zeros] < a.len());
                assert(syms[k as int] == a[d as int]);
            } else {
                assert(syms[k as int] == a[0]);
            }
            assert(syms.subrange(0, k + 1) =~= syms.subrange(0, k as int) + seq![syms[k as int]]);
            lemma_encode_utf8_concat(syms.subrange(0, k as int), seq![syms[k as int]]);
            lemma_encode_utf8_len(seq![syms[k as int]]);
        }
        let (_, m) = utf8_of(alphabet[d as usize]);
        total = total + m as u128;
        k = k + 1;
    }
    proof {
        assert(syms.subrange(0, count as int) =~= syms);
    }
    total
}

/// Replaces the digits in the first `count` cells of `buf` by the UTF-8 text of their symbols,
/// `total` bytes long, working from the end so that no digit is overwritten before it is read.
#[verifier::loop_isolation(false)]
fn expand_utf8(alphabet: &[char], buf: &mut [u8], count: usize, total: usize)
    requires
        count <= total <= old(buf)@.len(),
        digits_below(old(buf)@.subrange(0, count as int), alphabet@.len()),
        total == encode_utf8(
            old(buf)@.subrange(0, count as int).map_values(|d: u8| alphabet@[d as int]),
        ).len(),
    ensures
        final(buf)@.len() == old(buf)@.len(),
        final(buf)@.subrange(0, total as int) == encode_utf8(
            old(buf)@.subrange(0, count as int).map_values(|d: u8| alphabet@[d as int]),
        ),
{
    let ghost a = alphabet@;
    let ghost placed = buf@;
    let ghost syms = placed.subrange(0, count as int).map_values(|d: u8| a[d as int]);
    let cap = buf.len();
    let mut k: usize = count;
    let mut w: usize = total;
    proof {
        assert(syms.subrange(0, count as int) =~= syms);
        assert(syms.subrange(count as int, count as int) =~= Seq::<char>::empty());
        assert(buf@.subrange(w as int, total as int) =~= Seq::<u8>::empty());
    }
    while k > 0
        invariant
            k <= count,
            k <= w <= total <= cap,
            buf@.len() == cap,
            syms.len() == count,
            w == encode_utf8(syms.subrange(0, k as int)).len(),
            forall|j: int| 0 <= j < k ==> buf@[j] == placed[j],
            buf@.subrange(w as int, total as int) == encode_utf8(
                syms.subrange(k as int, count as int),
            ),
        decreases k,
    {
        let d = buf[k - 1];
        proof {
            assert(d == placed[k - 1]);
            assert(placed.subrange(0, count as int)[k - 1] == d);
            assert(d < a.len());
            assert(syms[k - 1] == a[d as int]);
        }
        let (bytes, m) = utf8_of(alphabet[d as usize]);
        let ghost enc = encode_utf8(seq![syms[k - 1]]);
        proof {
            assert(syms.subrange(0, k as int) =~= syms.subrange(0, k - 1) + seq![syms[k - 1]]);
            lemma_encode_utf8_concat(syms.subrange(0, k - 1), seq![syms[k - 1]]);
            lemma_encode_utf8_len(syms.subrange(0, k - 1));
            lemma_encode_utf8_len(seq![syms[k - 1]]);
            assert(bytes@.len() == 4);
        }
        let at = w - m;
        let ghost before = buf@;
        let mut t: usize = 0;
        while t < m
            invariant
                t <= m,
                m <= 4,
                bytes@.len() == 4,
                at + m == w,
                buf@.len() == cap,
                m == enc.len(),
                bytes@.subrange(0, m as int) == enc,
                forall|j: int| 0 <= j < at ==> buf@[j] == before[j],
                forall|j: int| w <= j < cap ==> buf@[j] == before[j],
                forall|j: int| at <= j < at + t ==> buf@[j] == enc[j - at],
            decreases m - t,
        {
            proof {
                assert(bytes@.subrange(0, m as int)[t as int] == bytes@[t as int]);
            }
            buf[at + t] = bytes[t];
            t = t + 1;
        }
        proof {
            let tail = syms.subrange(k - 1, count as int);
            assert(tail =~= seq![syms[k - 1]] + syms.subrange(k as int, count as int));
            lemma_encode_utf8_concat(seq![syms[k - 1]], syms.subrange(k as int, count as int));
            assert forall|j: int| at <= j < total implies buf@[j] == encode_utf8(tail)[j - at] by {
                if j >= w {
                    assert(buf@[j] == before[j]);
                    assert(before.subrange(w as int, total as int)[j - w] == before[j]);
                }
            }
            assert(buf@.subrange(at as int, total as int) =~= encode_utf8(tail));
        }
        w = at;
        k = k - 1;
    }
    proof {
        assert(syms.subrange(0, 0) =~= Seq::<char>::empty());
        assert(syms.subrange(0, count as int) =~= syms);
    }
}

} // verus!
