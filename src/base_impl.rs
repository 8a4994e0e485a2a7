use crate::base::Base;
use vstd::prelude::*;

verus! {

/// Binary digits.
pub struct Base2;

impl Base<2> for Base2 {
    open spec fn spec_alphabet() -> Seq<u8> {
        seq![
            '0' as u8, '1' as u8,
        ]
    }

    proof fn lemma_alphabet() {
    }

    fn alphabet() -> (r: [u8; 2]) {
        let r = [
            '0' as u8, '1' as u8,
        ];
        assert(r@ =~= Self::spec_alphabet());
        r
    }
}

/// Octal digits.
pub struct Base8;

impl Base<8> for Base8 {
    open spec fn spec_alphabet() -> Seq<u8> {
        seq![
            '0' as u8, '1' as u8, '2' as u8, '3' as u8, '4' as u8, '5' as u8, '6' as u8,
            '7' as u8,
        ]
    }

    proof fn lemma_alphabet() {
    }

    fn alphabet() -> (r: [u8; 8]) {
        let r = [
            '0' as u8, '1' as u8, '2' as u8, '3' as u8, '4' as u8, '5' as u8, '6' as u8,
            '7' as u8,
        ];
        assert(r@ =~= Self::spec_alphabet());
        r
    }
}

/// Decimal digits.
pub struct Base10;

impl Base<10> for Base10 {
    open spec fn spec_alphabet() -> Seq<u8> {
        seq![
            '0' as u8, '1' as u8, '2' as u8, '3' as u8, '4' as u8, '5' as u8, '6' as u8,
            '7' as u8, '8' as u8, '9' as u8,
        ]
    }

    proof fn lemma_alphabet() {
    }

    fn alphabet() -> (r: [u8; 10]) {
        let r = [
            '0' as u8, '1' as u8, '2' as u8, '3' as u8, '4' as u8, '5' as u8, '6' as u8,
            '7' as u8, '8' as u8, '9' as u8,
        ];
        assert(r@ =~= Self::spec_alphabet());
        r
    }
}

/// Decimal digits and `a`.
pub struct Base11;

impl Base<11> for Base11 {
    open spec fn spec_alphabet() -> Seq<u8> {
        seq![
            '0' as u8, '1' as u8, '2' as u8, '3' as u8, '4' as u8, '5' as u8, '6' as u8,
            '7' as u8, '8' as u8, '9' as u8, 'a' as u8,
        ]
    }

    proof fn lemma_alphabet() {
    }

    fn alphabet() -> (r: [u8; 11]) {
        let r = [
            '0' as u8, '1' as u8, '2' as u8, '3' as u8, '4' as u8, '5' as u8, '6' as u8,
            '7' as u8, '8' as u8, '9' as u8, 'a' as u8,
        ];
        assert(r@ =~= Self::spec_alphabet());
        r
    }
}

/// Decimal digits and lower-case letters.
pub struct Base36;

impl Base<36> for Base36 {
    open spec fn spec_alphabet() -> Seq<u8> {
        seq![
            '0' as u8, '1' as u8, '2' as u8, '3' as u8, '4' as u8, '5' as u8, '6' as u8,
            '7' as u8, '8' as u8, '9' as u8, 'a' as u8, 'b' as u8, 'c' as u8, 'd' as u8,
            'e' as u8, 'f' as u8, 'g' as u8, 'h' as u8, 'i' as u8, 'j' as u8, 'k' as u8,
            'l' as u8, 'm' as u8, 'n' as u8, 'o' as u8, 'p' as u8, 'q' as u8, 'r' as u8,
            's' as u8, 't' as u8, 'u' as u8, 'v' as u8, 'w' as u8, 'x' as u8, 'y' as u8,
            'z' as u8,
        ]
    }

    proof fn lemma_alphabet() {
    }

    fn alphabet() -> (r: [u8; 36]) {
        let r = [
            '0' as u8, '1' as u8, '2' as u8, '3' as u8, '4' as u8, '5' as u8, '6' as u8,
            '7' as u8, '8' as u8, '9' as u8, 'a' as u8, 'b' as u8, 'c' as u8, 'd' as u8,
            'e' as u8, 'f' as u8, 'g' as u8, 'h' as u8, 'i' as u8, 'j' as u8, 'k' as u8,
            'l' as u8, 'm' as u8, 'n' as u8, 'o' as u8, 'p' as u8, 'q' as u8, 'r' as u8,
            's' as u8, 't' as u8, 'u' as u8, 'v' as u8, 'w' as u8, 'x' as u8, 'y' as u8,
            'z' as u8,
        ];
        assert(r@ =~= Self::spec_alphabet());
        r
    }
}

/// The Bitcoin base-58 alphabet: digits and letters without `0`, `I`, `O` and `l`.
pub struct Base58Btc;

impl Base<58> for Base58Btc {
    open spec fn spec_alphabet() -> Seq<u8> {
        seq![
            '1' as u8, '2' as u8, '3' as u8, '4' as u8, '5' as u8, '6' as u8, '7' as u8,
            '8' as u8, '9' as u8, 'A' as u8, 'B' as u8, 'C' as u8, 'D' as u8, 'E' as u8,
            'F' as u8, 'G' as u8, 'H' as u8, 'J' as u8, 'K' as u8, 'L' as u8, 'M' as u8,
            'N' as u8, 'P' as u8, 'Q' as u8, 'R' as u8, 'S' as u8, 'T' as u8, 'U' as u8,
            'V' as u8, 'W' as u8, 'X' as u8, 'Y' as u8, 'Z' as u8, 'a' as u8, 'b' as u8,
            'c' as u8, 'd' as u8, 'e' as u8, 'f' as u8, 'g' as u8, 'h' as u8, 'i' as u8,
            'j' as u8, 'k' as u8, 'm' as u8, 'n' as u8, 'o' as u8, 'p' as u8, 'q' as u8,
            'r' as u8, 's' as u8, 't' as u8, 'u' as u8, 'v' as u8, 'w' as u8, 'x' as u8,
            'y' as u8, 'z' as u8,
        ]
    }

    proof fn lemma_alphabet() {
    }

    fn alphabet() -> (r: [u8; 58]) {
        let r = [
            '1' as u8, '2' as u8, '3' as u8, '4' as u8, '5' as u8, '6' as u8, '7' as u8,
            '8' as u8, '9' as u8, 'A' as u8, 'B' as u8, 'C' as u8, 'D' as u8, 'E' as u8,
            'F' as u8, 'G' as u8, 'H' as u8, 'J' as u8, 'K' as u8, 'L' as u8, 'M' as u8,
            'N' as u8, 'P' as u8, 'Q' as u8, 'R' as u8, 'S' as u8, 'T' as u8, 'U' as u8,
            'V' as u8, 'W' as u8, 'X' as u8, 'Y' as u8, 'Z' as u8, 'a' as u8, 'b' as u8,
            'c' as u8, 'd' as u8, 'e' as u8, 'f' as u8, 'g' as u8, 'h' as u8, 'i' as u8,
            'j' as u8, 'k' as u8, 'm' as u8, 'n' as u8, 'o' as u8, 'p' as u8, 'q' as u8,
            'r' as u8, 's' as u8, 't' as u8, 'u' as u8, 'v' as u8, 'w' as u8, 'x' as u8,
            'y' as u8, 'z' as u8,
        ];
        assert(r@ =~= Self::spec_alphabet());
        r
    }
}

/// The Flickr base-58 alphabet: the Bitcoin symbols with lower case before upper case.
pub struct Base58Flickr;

impl Base<58> for Base58Flickr {
    open spec fn spec_alphabet() -> Seq<u8> {
        seq![
            '1' as u8, '2' as u8, '3' as u8, '4' as u8, '5' as u8, '6' as u8, '7' as u8,
            '8' as u8, '9' as u8, 'a' as u8, 'b' as u8, 'c' as u8, 'd' as u8, 'e' as u8,
            'f' as u8, 'g' as u8, 'h' as u8, 'i' as u8, 'j' as u8, 'k' as u8, 'm' as u8,
            'n' as u8, 'o' as u8, 'p' as u8, 'q' as u8, 'r' as u8, 's' as u8, 't' as u8,
            'u' as u8, 'v' as u8, 'w' as u8, 'x' as u8, 'y' as u8, 'z' as u8, 'A' as u8,
            'B' as u8, 'C' as u8, 'D' as u8, 'E' as u8, 'F' as u8, 'G' as u8, 'H' as u8,
            'J' as u8, 'K' as u8, 'L' as u8, 'M' as u8, 'N' as u8, 'P' as u8, 'Q' as u8,
            'R' as u8, 'S' as u8, 'T' as u8, 'U' as u8, 'V' as u8, 'W' as u8, 'X' as u8,
            'Y' as u8, 'Z' as u8,
        ]
    }

    proof fn lemma_alphabet() {
    }

    fn alphabet() -> (r: [u8; 58]) {
        let r = [
            '1' as u8, '2' as u8, '3' as u8, '4' as u8, '5' as u8, '6' as u8, '7' as u8,
            '8' as u8, '9' as u8, 'a' as u8, 'b' as u8, 'c' as u8, 'd' as u8, 'e' as u8,
            'f' as u8, 'g' as u8, 'h' as u8, 'i' as u8, 'j' as u8, 'k' as u8, 'm' as u8,
            'n' as u8, 'o' as u8, 'p' as u8, 'q' as u8, 'r' as u8, 's' as u8, 't' as u8,
            'u' as u8, 'v' as u8, 'w' as u8, 'x' as u8, 'y' as u8, 'z' as u8, 'A' as u8,
            'B' as u8, 'C' as u8, 'D' as u8, 'E' as u8, 'F' as u8, 'G' as u8, 'H' as u8,
            'J' as u8, 'K' as u8, 'L' as u8, 'M' as u8, 'N' as u8, 'P' as u8, 'Q' as u8,
            'R' as u8, 'S' as u8, 'T' as u8, 'U' as u8, 'V' as u8, 'W' as u8, 'X' as u8,
            'Y' as u8, 'Z' as u8,
        ];
        assert(r@ =~= Self::spec_alphabet());
        r
    }
}

/// Digits, lower-case and upper-case letters.
pub struct Base62;

impl Base<62> for Base62 {
    open spec fn spec_alphabet() -> Seq<u8> {
        seq![
            '0' as u8, '1' as u8, '2' as u8, '3' as u8, '4' as u8, '5' as u8, '6' as u8,
            '7' as u8, '8' as u8, '9' as u8, 'a' as u8, 'b' as u8, 'c' as u8, 'd' as u8,
            'e' as u8, 'f' as u8, 'g' as u8, 'h' as u8, 'i' as u8, 'j' as u8, 'k' as u8,
            'l' as u8, 'm' as u8, 'n' as u8, 'o' as u8, 'p' as u8, 'q' as u8, 'r' as u8,
            's' as u8, 't' as u8, 'u' as u8, 'v' as u8, 'w' as u8, 'x' as u8, 'y' as u8,
            'z' as u8, 'A' as u8, 'B' as u8, 'C' as u8, 'D' as u8, 'E' as u8, 'F' as u8,
            'G' as u8, 'H' as u8, 'I' as u8, 'J' as u8, 'K' as u8, 'L' as u8, 'M' as u8,
            'N' as u8, 'O' as u8, 'P' as u8, 'Q' as u8, 'R' as u8, 'S' as u8, 'T' as u8,
            'U' as u8, 'V' as u8, 'W' as u8, 'X' as u8, 'Y' as u8, 'Z' as u8,
        ]
    }

    proof fn lemma_alphabet() {
    }

    fn alphabet() -> (r: [u8; 62]) {
        let r = [
            '0' as u8, '1' as u8, '2' as u8, '3' as u8, '4' as u8, '5' as u8, '6' as u8,
            '7' as u8, '8' as u8, '9' as u8, 'a' as u8, 'b' as u8, 'c' as u8, 'd' as u8,
            'e' as u8, 'f' as u8, 'g' as u8, 'h' as u8, 'i' as u8, 'j' as u8, 'k' as u8,
            'l' as u8, 'm' as u8, 'n' as u8, 'o' as u8, 'p' as u8, 'q' as u8, 'r' as u8,
            's' as u8, 't' as u8, 'u' as u8, 'v' as u8, 'w' as u8, 'x' as u8, 'y' as u8,
            'z' as u8, 'A' as u8, 'B' as u8, 'C' as u8, 'D' as u8, 'E' as u8, 'F' as u8,
            'G' as u8, 'H' as u8, 'I' as u8, 'J' as u8, 'K' as u8, 'L' as u8, 'M' as u8,
            'N' as u8, 'O' as u8, 'P' as u8, 'Q' as u8, 'R' as u8, 'S' as u8, 'T' as u8,
            'U' as u8, 'V' as u8, 'W' as u8, 'X' as u8, 'Y' as u8, 'Z' as u8,
        ];
        assert(r@ =~= Self::spec_alphabet());
        r
    }
}

/// Letters, digits and the URL-safe marks `-_.!~`.
pub struct Base67;

impl Base<67> for Base67 {
    open spec fn spec_alphabet() -> Seq<u8> {
        seq![
            'A' as u8, 'B' as u8, 'C' as u8, 'D' as u8, 'E' as u8, 'F' as u8, 'G' as u8,
            'H' as u8, 'I' as u8, 'J' as u8, 'K' as u8, 'L' as u8, 'M' as u8, 'N' as u8,
            'O' as u8, 'P' as u8, 'Q' as u8, 'R' as u8, 'S' as u8, 'T' as u8, 'U' as u8,
            'V' as u8, 'W' as u8, 'X' as u8, 'Y' as u8, 'Z' as u8, 'a' as u8, 'b' as u8,
            'c' as u8, 'd' as u8, 'e' as u8, 'f' as u8, 'g' as u8, 'h' as u8, 'i' as u8,
            'j' as u8, 'k' as u8, 'l' as u8, 'm' as u8, 'n' as u8, 'o' as u8, 'p' as u8,
            'q' as u8, 'r' as u8, 's' as u8, 't' as u8, 'u' as u8, 'v' as u8, 'w' as u8,
            'x' as u8, 'y' as u8, 'z' as u8, '0' as u8, '1' as u8, '2' as u8, '3' as u8,
            '4' as u8, '5' as u8, '6' as u8, '7' as u8, '8' as u8, '9' as u8, '-' as u8,
            '_' as u8, '.' as u8, '!' as u8, '~' as u8,
        ]
    }

    proof fn lemma_alphabet() {
    }

    fn alphabet() -> (r: [u8; 67]) {
        let r = [
            'A' as u8, 'B' as u8, 'C' as u8, 'D' as u8, 'E' as u8, 'F' as u8, 'G' as u8,
            'H' as u8, 'I' as u8, 'J' as u8, 'K' as u8, 'L' as u8, 'M' as u8, 'N' as u8,
            'O' as u8, 'P' as u8, 'Q' as u8, 'R' as u8, 'S' as u8, 'T' as u8, 'U' as u8,
            'V' as u8, 'W' as u8, 'X' as u8, 'Y' as u8, 'Z' as u8, 'a' as u8, 'b' as u8,
            'c' as u8, 'd' as u8, 'e' as u8, 'f' as u8, 'g' as u8, 'h' as u8, 'i' as u8,
            'j' as u8, 'k' as u8, 'l' as u8, 'm' as u8, 'n' as u8, 'o' as u8, 'p' as u8,
            'q' as u8, 'r' as u8, 's' as u8, 't' as u8, 'u' as u8, 'v' as u8, 'w' as u8,
            'x' as u8, 'y' as u8, 'z' as u8, '0' as u8, '1' as u8, '2' as u8, '3' as u8,
            '4' as u8, '5' as u8, '6' as u8, '7' as u8, '8' as u8, '9' as u8, '-' as u8,
            '_' as u8, '.' as u8, '!' as u8, '~' as u8,
        ];
        assert(r@ =~= Self::spec_alphabet());
        r
    }
}

} // verus!
