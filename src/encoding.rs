//! Converting between text and bytes in UTF-8 or Latin-1.

use vstd::prelude::*;
use vstd::utf8::{valid_utf8, decode_utf8, encode_utf8};
use crate::extract::latin1;
use crate::text::{push_char, utf8_to_string};

verus! {

#[derive(Debug, Clone, Copy, PartialEq, Eq, Structural)]
pub enum Encoding {
    Utf8,
    Latin1,
}

#[derive(Debug, Clone, Copy, PartialEq, Eq, Structural)]
pub enum EncodingError {
    InvalidUtf8,
    UnrepresentableChar,
}

pub open spec fn decode_result(b: Seq<u8>, encoding: Encoding) -> Result<Seq<char>, EncodingError> {
    match encoding {
        Encoding::Utf8 => if valid_utf8(b) {
            Ok(decode_utf8(b))
        } else {
            Err(EncodingError::InvalidUtf8)
        },
        Encoding::Latin1 => Ok(latin1(b)),
    }
}

/// Every char has a one-byte Latin-1 code.
pub open spec fn latin1_encodable(t: Seq<char>) -> bool {
    forall|i: int| 0 <= i < t.len() ==> (#[trigger] t[i] as u32) <= 0xff
}

pub open spec fn encode_result(t: Seq<char>, encoding: Encoding) -> Result<Seq<u8>, EncodingError> {
    match encoding {
        Encoding::Utf8 => Ok(encode_utf8(t)),
        Encoding::Latin1 => if latin1_encodable(t) {
            Ok(t.map_values(|c: char| (c as u32) as u8))
        } else {
            Err(EncodingError::UnrepresentableChar)
        },
    }
}

pub fn decode(bytes: &[u8], encoding: Encoding) -> (r: Result<String, EncodingError>)
    ensures
        match r {
            Ok(s) => decode_result(bytes@, encoding) == Ok::<Seq<char>, EncodingError>(s@),
            Err(e) => decode_result(bytes@, encoding) == Err::<Seq<char>, EncodingError>(e),
        },
{
    match encoding {
        Encoding::Utf8 => match utf8_to_string(bytes) {
            Some(s) => Ok(s),
            None => Err(EncodingError::InvalidUtf8),
        },
        Encoding::Latin1 => {
            let mut s = String::new();
            let n = bytes.len();
            for i in 0..n
                invariant
                    n == bytes@.len(),
                    s@ == latin1(bytes@).take(i as int),
            {
                push_char(&mut s, bytes[i] as char);
                proof {
                    assert(latin1(bytes@).take(i + 1) =~= latin1(bytes@).take(i as int).push(
                        bytes@[i as int] as char,
                    ));
                }
            }
            proof {
                assert(latin1(bytes@).take(n as int) =~= latin1(bytes@));
            }
            Ok(s)
        },
    }
}

pub fn encode(text: &str, encoding: Encoding) -> (r: Result<Vec<u8>, EncodingError>)
    ensures
        match r {
            Ok(b) => encode_result(text@, encoding) == Ok::<Seq<u8>, EncodingError>(b@),
            Err(e) => encode_result(text@, encoding) == Err::<Seq<u8>, EncodingError>(e),
        },
{
    match encoding {
        Encoding::Utf8 => Ok(vstd::slice::slice_to_vec(text.as_bytes())),
        Encoding::Latin1 => {
            let mut out: Vec<u8> = Vec::new();
            for c in it: text.chars()
                invariant
                    it.seq() == text@,
                    encoding == Encoding::Latin1,
                    out@ == text@.take(it.index()).map_values(|c: char| (c as u32) as u8),
                    latin1_encodable(text@.take(it.index())),
            {
                let code = c as u32;
                if code > 0xff {
                    proof {
                        assert(text@[it.index()] == c);
                        assert(!latin1_encodable(text@));
                    }
                    return Err(EncodingError::UnrepresentableChar);
                }
                let ghost k = it.index();
                out.push(code as u8);
                proof {
                    assert(text@.take(k + 1) =~= text@.take(k).push(c));
                    assert(out@ =~= text@.take(k + 1).map_values(|c: char| (c as u32) as u8));
                }
            }
            proof {
                assert(text@.take(text@.len() as int) =~= text@);
            }
            Ok(out)
        },
    }
}

} // verus!
