use crate::codec::{decode_into, encode_into};
use crate::model::{ascii_alphabet, decode_spec, encode_spec, index_in, written};
use crate::util::{decoded_size, decoded_size_spec, encoded_size, encoded_size_spec, gen_lut};
use crate::DecodeError;
use vstd::prelude::*;

verus! {

/// A numeral system whose symbols are single ASCII bytes: `BASE` distinct symbols, none of them a
/// space, each standing for its index. Text is decoded into bytes and bytes are encoded into text
/// in caller-supplied buffers.
pub trait Base<const BASE: usize> {
    /// The symbols, in the order of their values.
    spec fn spec_alphabet() -> Seq<u8>;

    /// The alphabet is well formed and has `BASE` symbols.
    proof fn lemma_alphabet()
        ensures
            ascii_alphabet(Self::spec_alphabet()),
            Self::spec_alphabet().len() == BASE,
    ;

    /// The symbols, in the order of their values.
    fn alphabet() -> (r: [u8; BASE])
        ensures
            r@ == Self::spec_alphabet(),
    ;

    /// Decodes `input` into `buf` and returns the number of bytes written at its front. The
    /// buffer is cleared first; after an error it holds partial state.
    fn decode_mut(input: &[u8], buf: &mut [u8]) -> (r: Result<usize, DecodeError>)
        ensures
            final(buf)@.len() == old(buf)@.len(),
            written(
                decode_spec(Self::spec_alphabet(), input@, old(buf)@.len() as nat),
                r,
                final(buf)@,
            ),
    {
        let alphabet = Self::alphabet();
        proof {
            Self::lemma_alphabet();
        }
        let lut = gen_lut(&alphabet);
        decode_into(alphabet.as_slice(), &lut, input, buf)
    }

    /// Encodes `input` into `buf` as symbols and returns the number of symbols written at its
    /// front. The buffer is cleared first; after an error it holds partial state.
    fn encode_mut(input: &[u8], buf: &mut [u8]) -> (r: Result<usize, DecodeError>)
        ensures
            final(buf)@.len() == old(buf)@.len(),
            written(
                encode_spec(Self::spec_alphabet(), input@, old(buf)@.len() as nat),
                r,
                final(buf)@,
            ),
    {
        let alphabet = Self::alphabet();
        proof {
            Self::lemma_alphabet();
        }
        encode_into(alphabet.as_slice(), input, buf)
    }

    /// The value of the symbol `ch`, if it is one. Builds the lookup table on each call; the
    /// decoder builds it once per input.
    fn lookup_ascii(ch: u8) -> (r: Option<usize>)
        ensures
            r == match index_in(Self::spec_alphabet(), ch) {
                Some(i) => Some(i as usize),
                None => None::<usize>,
            },
    {
        let alphabet = Self::alphabet();
        proof {
            Self::lemma_alphabet();
        }
        let lut = gen_lut(&alphabet);
        let i = lut[ch as usize];
        if i < 0 {
            None
        } else {
            Some(i as usize)
        }
    }

    /// Decodes the `LEN` units of `input` into a buffer of `decoded_size(BASE, LEN)` bytes, which
    /// is returned with the number of bytes written. The estimate counts every unit as a digit; a
    /// long run of leading zero symbols, one byte each, can need more and is then refused with
    /// `InvalidLength`.
    fn decode_arr<const LEN: usize>(input: [u8; LEN]) -> (r: Result<(Vec<u8>, usize), DecodeError>)
        ensures
            ({
                let cap = decoded_size_spec(BASE as nat, LEN as nat);
                match r {
                    Ok((out, n)) => out@.len() == cap && written(
                        decode_spec(Self::spec_alphabet(), input@, cap as nat),
                        Ok(n),
                        out@,
                    ),
                    Err(e) => written(
                        decode_spec(Self::spec_alphabet(), input@, cap as nat),
                        Err(e),
                        Seq::empty(),
                    ),
                }
            }),
    {
        proof {
            Self::lemma_alphabet();
        }
        let cap = decoded_size(BASE, LEN);
        let mut out: Vec<u8> = vec![0u8; cap];
        match Self::decode_mut(input.as_slice(), out.as_mut_slice()) {
            Ok(n) => Ok((out, n)),
            Err(e) => Err(e),
        }
    }

    /// Encodes the `LEN` bytes of `input` into a buffer of `encoded_size(BASE, LEN)` symbols,
    /// which is returned with the number of symbols written.
    fn encode_arr<const LEN: usize>(input: [u8; LEN]) -> (r: Result<(Vec<u8>, usize), DecodeError>)
        ensures
            ({
                let cap = encoded_size_spec(BASE as nat, LEN as nat);
                match r {
                    Ok((out, n)) => out@.len() == cap && written(
                        encode_spec(Self::spec_alphabet(), input@, cap as nat),
                        Ok(n),
                        out@,
                    ),
                    Err(e) => written(
                        encode_spec(Self::spec_alphabet(), input@, cap as nat),
                        Err(e),
                        Seq::empty(),
                    ),
                }
            }),
    {
        proof {
            Self::lemma_alphabet();
        }
        let cap = encoded_size(BASE, LEN);
        let mut out: Vec<u8> = vec![0u8; cap];
        match Self::encode_mut(input.as_slice(), out.as_mut_slice()) {
            Ok(n) => Ok((out, n)),
            Err(e) => Err(e),
        }
    }
}

} // verus!
