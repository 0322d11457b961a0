use vstd::prelude::*;

use crate::pad::{padding_size7, unpad7, BytesCryptoExt};

verus! {

use vstd::string::StringSliceAdditionalSpecFns;
use vstd::string::StrSliceExecFns;
use vstd::string::StringExecFns;
use vstd::utf8::{encode_utf8, valid_utf8};

/// ASCII code of a hexadecimal digit, either case.
pub open spec fn is_hex_digit(b: u8) -> bool {
    (48 <= b <= 57) || (97 <= b <= 102) || (65 <= b <= 70)
}

/// Numeric value of a hexadecimal digit's ASCII code.
pub open spec fn hex_val(b: u8) -> int {
    if 48 <= b <= 57 {
        b - 48
    } else if 97 <= b <= 102 {
        b - 97 + 10
    } else {
        b - 65 + 10
    }
}

/// The values of the hexadecimal digits of `s`, in order, every other
/// byte ignored.
pub open spec fn nibbles(s: Seq<u8>) -> Seq<int>
    decreases s.len(),
{
    if s.len() == 0 {
        Seq::empty()
    } else if is_hex_digit(s.last()) {
        nibbles(s.drop_last()).push(hex_val(s.last()))
    } else {
        nibbles(s.drop_last())
    }
}

/// Adjacent nibbles combined into bytes, high nibble first; a trailing
/// unpaired nibble is dropped.
pub open spec fn pair_bytes(nib: Seq<int>) -> Seq<u8> {
    Seq::new((nib.len() / 2) as nat, |i: int| (nib[2 * i] * 16 + nib[2 * i + 1]) as u8)
}

/// A character an unsuspecting terminal can show: ASCII whitespace or
/// anything that is not an ASCII control code.
pub open spec fn printable_char(c: char) -> bool {
    let u = c as u32;
    (u == 32 || u == 9 || u == 10 || u == 12 || u == 13) || !(u < 32 || u == 127)
}

pub trait StrCryptoExt {
    fn parse_hex(&self) -> Vec<u8>;
    fn is_printable_ascii(&self) -> bool;
    fn strip_pkcs7_padding(&self, block_size: u8) -> Option<String>;
}

impl StrCryptoExt for str {
    /// Bytes read from the text's hexadecimal digits, two digits to a
    /// byte; other characters and a trailing lone digit are ignored.
    fn parse_hex(&self) -> (r: Vec<u8>)
        ensures
            r@ == pair_bytes(nibbles(self.spec_bytes())),
    {
        let sb = self.as_bytes();
        let mut out: Vec<u8> = Vec::new();
        let mut pending: Option<u8> = None;
        let mut i: usize = 0;
        while i < sb.len()
            invariant
                i <= sb@.len(),
                ({
                    let nib = nibbles(sb@.take(i as int));
                    &&& out@ == pair_bytes(nib)
                    &&& match pending {
                        Some(h) => nib.len() % 2 == 1 && nib.last() == h as int && h < 16,
                        None => nib.len() % 2 == 0,
                    }
                }),
            decreases sb@.len() - i,
        {
            let ghost nib = nibbles(sb@.take(i as int));
            let b = sb[i];
            let digit: Option<u8> = if b >= 48 && b <= 57 {
                Some(b - 48)
            } else if b >= 97 && b <= 102 {
                Some(b - 97 + 10)
            } else if b >= 65 && b <= 70 {
                Some(b - 65 + 10)
            } else {
                None
            };
            proof {
                assert(sb@.take(i + 1 as int).drop_last() =~= sb@.take(i as int));
                assert(sb@.take(i + 1 as int).last() == sb@[i as int]);
            }
            match digit {
                None => {
                    proof {
                        assert(nibbles(sb@.take(i + 1 as int)) =~= nib);
                    }
                },
                Some(v) => {
                    match pending {
                        None => {
                            pending = Some(v);
                            proof {
                                let nib2 = nibbles(sb@.take(i + 1 as int));
                                assert(nib2 =~= nib.push(v as int));
                                assert(pair_bytes(nib2) =~= pair_bytes(nib));
                            }
                        },
                        Some(h) => {
                            out.push(h << 4 | v);
                            pending = None;
                            proof {
                                let nib2 = nibbles(sb@.take(i + 1 as int));
                                assert(nib2 =~= nib.push(v as int));
                                assert(h < 16 && v < 16);
                                assert(h << 4 | v == h * 16 + v) by (bit_vector)
                                    requires
                                        h < 16 && v < 16,
                                ;
                                assert(pair_bytes(nib2) =~= pair_bytes(nib).push(
                                    (h * 16 + v) as u8,
                                ));
                            }
                        },
                    }
                },
            }
            i = i + 1;
        }
        proof {
            assert(sb@.take(sb@.len() as int) =~= sb@);
        }
        out
    }

    /// Whether every character of the text is printable: ASCII whitespace
    /// or not an ASCII control code.
    fn is_printable_ascii(&self) -> (r: bool)
        ensures
            r == forall|i: int| 0 <= i < self@.len() ==> printable_char(#[trigger] self@[i]),
    {
        let n = self.unicode_len();
        let mut i: usize = 0;
        while i < n
            invariant
                i <= n,
                n == self@.len(),
                forall|j: int| 0 <= j < i ==> printable_char(#[trigger] self@[j]),
            decreases n - i,
        {
            let c = self.get_char(i);
            let u = c as u32;
            let ok = (u == 32 || u == 9 || u == 10 || u == 12 || u == 13) || !(u < 32 || u == 127);
            if !ok {
                return false;
            }
            i = i + 1;
        }
        true
    }

    /// Strip a valid PKCS#7 tail from the text's bytes; `None` when the
    /// tail is invalid or what remains is not UTF-8.
    fn strip_pkcs7_padding(&self, block_size: u8) -> (r: Option<String>)
        ensures
            ({
                let stripped = unpad7(self.spec_bytes(), block_size as int);
                &&& (r is Some <==> padding_size7(self.spec_bytes(), block_size as int) is Some
                    && valid_utf8(stripped))
                &&& (r matches Some(t) ==> encode_utf8(t@) == stripped)
            }),
    {
        let mut bytes = self.as_bytes_vec();
        match bytes.pkcs7_padding_size(block_size) {
            None => None,
            Some(_k) => {
                bytes.unpad_pkcs7(block_size);
                vec_to_string(bytes)
            },
        }
    }
}

/// Relies on String::from_utf8: succeeds exactly on valid UTF-8 input
/// and preserves the bytes.
#[verifier::external_body]
fn vec_to_string(v: Vec<u8>) -> (r: Option<String>)
    ensures
        r is Some <==> valid_utf8(v@),
        r matches Some(s) ==> encode_utf8(s@) == v@,
{
    String::from_utf8(v).ok()
}

/// The lowercase hexadecimal digit with value `d`.
pub open spec fn hex_digit_char(d: int) -> char {
    if d == 0 { '0' } else if d == 1 { '1' } else if d == 2 { '2' } else if d == 3 { '3' }
    else if d == 4 { '4' } else if d == 5 { '5' } else if d == 6 { '6' } else if d == 7 { '7' }
    else if d == 8 { '8' } else if d == 9 { '9' } else if d == 10 { 'a' } else if d == 11 { 'b' }
    else if d == 12 { 'c' } else if d == 13 { 'd' } else if d == 14 { 'e' } else { 'f' }
}

/// A byte rendered in lowercase hexadecimal without leading zero: one
/// digit below 16, two digits otherwise.
pub open spec fn byte_hex(x: u8) -> Seq<char> {
    if x < 16 {
        seq![hex_digit_char(x as int)]
    } else {
        seq![hex_digit_char(x as int / 16), hex_digit_char(x as int % 16)]
    }
}

/// Each byte of `s` rendered in lowercase hexadecimal without leading
/// zeros, concatenated.
pub open spec fn hex_str(s: Seq<u8>) -> Seq<char>
    decreases s.len(),
{
    if s.len() == 0 {
        Seq::empty()
    } else {
        hex_str(s.drop_last()) + byte_hex(s.last())
    }
}

pub trait HexDisplay {
    fn as_hex(&self) -> String;
}

impl HexDisplay for [u8] {
    /// The buffer rendered in lowercase hexadecimal, each byte without
    /// leading zero.
    fn as_hex(&self) -> (r: String)
        ensures
            r@ == hex_str(self@),
    {
        let mut out = String::new();
        let mut i: usize = 0;
        while i < self.len()
            invariant
                i <= self@.len(),
                out@ == hex_str(self@.take(i as int)),
            decreases self@.len() - i,
        {
            let b = self[i];
            if b >= 16 {
                out.append(hex_digit_str(b / 16));
                out.append(hex_digit_str(b % 16));
            } else {
                out.append(hex_digit_str(b));
            }
            i = i + 1;
            proof {
                assert(self@.take(i as int).drop_last() =~= self@.take(i - 1 as int));
                assert(out@ =~= hex_str(self@.take(i as int)));
            }
        }
        proof {
            assert(self@.take(self@.len() as int) =~= self@);
        }
        out
    }
}

/// The lowercase hexadecimal digit with value `d`, as text.
fn hex_digit_str(d: u8) -> (r: &'static str)
    requires
        d < 16,
    ensures
        r@ =~= seq![hex_digit_char(d as int)],
{
    proof {
        reveal_strlit("0");
        reveal_strlit("1");
        reveal_strlit("2");
        reveal_strlit("3");
        reveal_strlit("4");
        reveal_strlit("5");
        reveal_strlit("6");
        reveal_strlit("7");
        reveal_strlit("8");
        reveal_strlit("9");
        reveal_strlit("a");
        reveal_strlit("b");
        reveal_strlit("c");
        reveal_strlit("d");
        reveal_strlit("e");
        reveal_strlit("f");
    }
    match d {
        0 => "0",
        1 => "1",
        2 => "2",
        3 => "3",
        4 => "4",
        5 => "5",
        6 => "6",
        7 => "7",
        8 => "8",
        9 => "9",
        10 => "a",
        11 => "b",
        12 => "c",
        13 => "d",
        14 => "e",
        _ => "f",
    }
}

} // verus!
