//! Reversible percent-encoding of arbitrary bytes into URL- and
//! filesystem-safe ASCII tokens.
//!
//! Bytes in the unreserved set pass through unchanged; every other byte
//! becomes `%` followed by two uppercase hex digits, high nibble first.
//! Decoding is total over arbitrary input strings: it either recovers the
//! byte sequence or reports a malformed escape.

use vstd::prelude::*;

verus! {

/// A percent-escape was malformed: a `%` at the end of the input, or one
/// followed by fewer than two hex digits, or by a non-hex character.
#[derive(Clone, Copy, PartialEq, Eq, Structural, Debug)]
pub struct DecodeError;

/// The bytes that encode to themselves: ASCII letters, digits, `-_.~`.
pub open spec fn is_unreserved(b: u8) -> bool {
    (65 <= b && b <= 90)  // A-Z
     || (97 <= b && b <= 122)  // a-z
     || (48 <= b && b <= 57)  // 0-9
     || b == 45 || b == 95 || b == 46 || b == 126  // - _ . ~

}

/// The uppercase hex digit for a nibble.
pub open spec fn spec_hex_char(n: u8) -> char {
    if n == 0 {
        '0'
    } else if n == 1 {
        '1'
    } else if n == 2 {
        '2'
    } else if n == 3 {
        '3'
    } else if n == 4 {
        '4'
    } else if n == 5 {
        '5'
    } else if n == 6 {
        '6'
    } else if n == 7 {
        '7'
    } else if n == 8 {
        '8'
    } else if n == 9 {
        '9'
    } else if n == 10 {
        'A'
    } else if n == 11 {
        'B'
    } else if n == 12 {
        'C'
    } else if n == 13 {
        'D'
    } else if n == 14 {
        'E'
    } else {
        'F'
    }
}

/// The value of a hex digit, either case; `None` for any other character.
pub open spec fn spec_hex_val(c: char) -> Option<u8> {
    let u = c as u32;
    if 48 <= u && u <= 57 {
        Some((u - 48) as u8)
    } else if 65 <= u && u <= 70 {
        Some((u - 65 + 10) as u8)
    } else if 97 <= u && u <= 102 {
        Some((u - 97 + 10) as u8)
    } else {
        None
    }
}

/// The byte a non-escape character decodes to: its scalar value, truncated
/// to the low eight bits.
pub open spec fn byte_of_char(c: char) -> u8 {
    (((c as u32) % 256) as u8)
}

/// The encoding of one byte.
pub open spec fn spec_encode_byte(b: u8) -> Seq<char> {
    if is_unreserved(b) {
        seq![b as char]
    } else {
        seq!['%', spec_hex_char(b / 16), spec_hex_char(b % 16)]
    }
}

/// The percent-encoding of a byte sequence.
pub open spec fn spec_encode(bs: Seq<u8>) -> Seq<char>
    decreases bs.len(),
{
    if bs.len() == 0 {
        Seq::empty()
    } else {
        spec_encode_byte(bs[0]) + spec_encode(bs.drop_first())
    }
}

/// The percent-decoding of a character sequence: `None` exactly when some
/// `%` is not followed by two hex digits.
pub open spec fn spec_decode(s: Seq<char>) -> Option<Seq<u8>>
    decreases s.len(),
{
    if s.len() == 0 {
        Some(Seq::empty())
    } else if s[0] == '%' {
        if s.len() >= 3 && spec_hex_val(s[1]) is Some && spec_hex_val(s[2]) is Some {
            match spec_decode(s.skip(3)) {
                Some(rest) => Some(
                    seq![(spec_hex_val(s[1]).unwrap() * 16 + spec_hex_val(s[2]).unwrap()) as u8]
                        + rest,
                ),
                None => None,
            }
        } else {
            None
        }
    } else {
        match spec_decode(s.drop_first()) {
            Some(rest) => Some(seq![byte_of_char(s[0])] + rest),
            None => None,
        }
    }
}

/// Appending one byte extends the encoding by that byte's encoding.
proof fn lemma_encode_push(bs: Seq<u8>, b: u8)
    ensures
        spec_encode(bs.push(b)) == spec_encode(bs) + spec_encode_byte(b),
    decreases bs.len(),
{
    if bs.len() == 0 {
        assert(bs.push(b)[0] == b);
        assert(bs.push(b).drop_first() =~= Seq::<u8>::empty());
        assert(spec_encode(bs.push(b)) == spec_encode_byte(b) + spec_encode(Seq::<u8>::empty()));
        assert(spec_encode(bs.push(b)) =~= spec_encode_byte(b));
        assert(spec_encode(bs) + spec_encode_byte(b) =~= spec_encode_byte(b));
    } else {
        assert(bs.push(b)[0] == bs[0]);
        assert(bs.push(b).drop_first() =~= bs.drop_first().push(b));
        lemma_encode_push(bs.drop_first(), b);
        assert(spec_encode(bs.push(b)) =~= spec_encode(bs) + spec_encode_byte(b));
    }
}

fn hex_char(n: u8) -> (c: char)
    requires
        n < 16,
    ensures
        c == spec_hex_char(n),
{
    if n == 0 {
        '0'
    } else if n == 1 {
        '1'
    } else if n == 2 {
        '2'
    } else if n == 3 {
        '3'
    } else if n == 4 {
        '4'
    } else if n == 5 {
        '5'
    } else if n == 6 {
        '6'
    } else if n == 7 {
        '7'
    } else if n == 8 {
        '8'
    } else if n == 9 {
        '9'
    } else if n == 10 {
        'A'
    } else if n == 11 {
        'B'
    } else if n == 12 {
        'C'
    } else if n == 13 {
        'D'
    } else if n == 14 {
        'E'
    } else {
        'F'
    }
}

fn hex_val(c: char) -> (r: Option<u8>)
    ensures
        r == spec_hex_val(c),
{
    let u = c as u32;
    if 48 <= u && u <= 57 {
        Some((u - 48) as u8)
    } else if 65 <= u && u <= 70 {
        Some((u - 65 + 10) as u8)
    } else if 97 <= u && u <= 102 {
        Some((u - 97 + 10) as u8)
    } else {
        None
    }
}

/// Percent-encode arbitrary bytes into an ASCII-safe token.
pub fn my_urlencode(input: &[u8]) -> (r: String)
    ensures
        r@ == spec_encode(input@),
{
    let mut out = String::new();
    let n = input.len();
    let mut i: usize = 0;
    while i < n
        invariant
            n == input@.len(),
            i <= n,
            out@ == spec_encode(input@.take(i as int)),
        decreases n - i,
    {
        let b = input[i];
        if (65 <= b && b <= 90) || (97 <= b && b <= 122) || (48 <= b && b <= 57) || b == 45
            || b == 95 || b == 46 || b == 126 {
            crate::strutil::string_push(&mut out, b as char);
            proof {
                assert(out@ =~= spec_encode(input@.take(i as int)) + spec_encode_byte(b));
            }
        } else {
            crate::strutil::string_push(&mut out, '%');
            crate::strutil::string_push(&mut out, hex_char(b / 16));
            crate::strutil::string_push(&mut out, hex_char(b % 16));
            proof {
                assert(out@ =~= spec_encode(input@.take(i as int)) + spec_encode_byte(b));
            }
        }
        proof {
            lemma_encode_push(input@.take(i as int), b);
            assert(input@.take(i as int).push(b) =~= input@.take(i + 1 as int));
        }
        i = i + 1;
    }
    proof {
        assert(input@.take(n as int) =~= input@);
    }
    out
}

/// Percent-decode a token back into its bytes; fails exactly on a malformed
/// or truncated escape.
pub fn my_urldecode(input: &str) -> (r: Result<Vec<u8>, DecodeError>)
    ensures
        match r {
            Ok(bytes) => spec_decode(input@) == Some(bytes@),
            Err(_) => spec_decode(input@) is None,
        },
{
    let n = input.unicode_len();
    let mut out: Vec<u8> = Vec::new();
    let mut i: usize = 0;
    proof {
        assert(input@.skip(0) =~= input@);
        if spec_decode(input@) is Some {
            assert(out@ + spec_decode(input@).unwrap() =~= spec_decode(input@).unwrap());
        }
    }
    while i < n
        invariant
            n == input@.len(),
            i <= n,
            spec_decode(input@) == (match spec_decode(input@.skip(i as int)) {
                Some(rest) => Some(out@ + rest),
                None => None::<Seq<u8>>,
            }),
        decreases n - i,
    {
        let ghost pre = input@.skip(i as int);
        let c = input.get_char(i);
        if c == '%' {
            if n - i >= 3 {
                let h1 = hex_val(input.get_char(i + 1));
                let h2 = hex_val(input.get_char(i + 2));
                match (h1, h2) {
                    (Some(v1), Some(v2)) => {
                        out.push(v1 * 16 + v2);
                        proof {
                            assert(pre.skip(3) =~= input@.skip(i + 3 as int));
                            assert(spec_decode(input@) == (match spec_decode(
                                input@.skip(i + 3 as int),
                            ) {
                                Some(rest) => Some(out@ + rest),
                                None => None::<Seq<u8>>,
                            })) by {
                                if spec_decode(input@.skip(i + 3 as int)) is Some {
                                    let rest = spec_decode(input@.skip(i + 3 as int)).unwrap();
                                    assert(out@ + rest =~= out@.drop_last() + (seq![(v1 * 16
                                        + v2) as u8] + rest));
                                }
                            }
                        }
                        i = i + 3;
                    },
                    _ => {
                        return Err(DecodeError);
                    },
                }
            } else {
                return Err(DecodeError);
            }
        } else {
            let code: u32 = c as u32;
            out.push((code % 256) as u8);
            proof {
                assert(pre.drop_first() =~= input@.skip(i + 1 as int));
                assert(spec_decode(input@) == (match spec_decode(input@.skip(i + 1 as int)) {
                    Some(rest) => Some(out@ + rest),
                    None => None::<Seq<u8>>,
                })) by {
                    if spec_decode(input@.skip(i + 1 as int)) is Some {
                        let rest = spec_decode(input@.skip(i + 1 as int)).unwrap();
                        assert(out@ + rest =~= out@.drop_last() + (seq![byte_of_char(c)] + rest));
                    }
                }
            }
            i = i + 1;
        }
    }
    proof {
        assert(input@.skip(n as int) =~= Seq::<char>::empty());
        assert(out@ + Seq::<u8>::empty() =~= out@);
    }
    Ok(out)
}

/// A hex digit produced by the encoder decodes back to its nibble.
proof fn lemma_hex_char_val(n: u8)
    requires
        n < 16,
    ensures
        spec_hex_val(spec_hex_char(n)) == Some(n),
{
}

/// Decoding undoes encoding: the round trip recovers every byte sequence.
pub proof fn lemma_decode_encode(bs: Seq<u8>)
    ensures
        spec_decode(spec_encode(bs)) == Some(bs),
    decreases bs.len(),
{
    if bs.len() == 0 {
    } else {
        let b = bs[0];
        let head = spec_encode_byte(b);
        let tail = spec_encode(bs.drop_first());
        let s = spec_encode(bs);
        lemma_decode_encode(bs.drop_first());
        if is_unreserved(b) {
            assert(s =~= seq![b as char] + tail);
            assert(s[0] == b as char);
            assert(b as char != '%');
            assert(byte_of_char(b as char) == b);
            assert(s.drop_first() =~= tail);
            assert(spec_decode(s) == Some(seq![b] + bs.drop_first()));
            assert(seq![b] + bs.drop_first() =~= bs);
        } else {
            let hi = b / 16;
            let lo = b % 16;
            assert(s =~= seq!['%', spec_hex_char(hi), spec_hex_char(lo)] + tail);
            assert(s[0] == '%' && s.len() >= 3);
            lemma_hex_char_val(hi);
            lemma_hex_char_val(lo);
            assert(s[1] == spec_hex_char(hi) && s[2] == spec_hex_char(lo));
            assert(hi * 16 + lo == b);
            assert(s.skip(3) =~= tail);
            assert(spec_decode(s) == Some(seq![b] + bs.drop_first()));
            assert(seq![b] + bs.drop_first() =~= bs);
        }
    }
}

} // verus!
