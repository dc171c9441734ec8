//! Standard base64 encoding (alphabet `A-Z a-z 0-9 + /`, padded with `=`).
use vstd::prelude::*;
use vstd::string::StringSliceAdditionalSpecFns;

verus! {

/// The base64 digit for a value below 64.
pub open spec fn base64_digit(v: nat) -> u8 {
    if v < 26 {
        (65 + v) as u8
    } else if v < 52 {
        (97 + (v - 26)) as u8
    } else if v < 62 {
        (48 + (v - 52)) as u8
    } else if v == 62 {
        43u8
    } else {
        47u8
    }
}

/// The padding character `=`.
pub open spec fn base64_pad() -> u8 {
    61u8
}

/// The four characters that encode the first one to three bytes of `d`.
pub open spec fn base64_block(d: Seq<u8>) -> Seq<u8> {
    let b0 = d[0] as nat;
    let b1 = if d.len() > 1 {
        d[1] as nat
    } else {
        0
    };
    let b2 = if d.len() > 2 {
        d[2] as nat
    } else {
        0
    };
    seq![
        base64_digit(b0 / 4),
        base64_digit((b0 % 4) * 16 + b1 / 16),
        if d.len() > 1 {
            base64_digit((b1 % 16) * 4 + b2 / 64)
        } else {
            base64_pad()
        },
        if d.len() > 2 {
            base64_digit(b2 % 64)
        } else {
            base64_pad()
        },
    ]
}

/// The base64 encoding of `d`: one block of four characters per three bytes.
pub open spec fn base64_bytes(d: Seq<u8>) -> Seq<u8>
    decreases d.len(),
{
    if d.len() == 0 {
        Seq::empty()
    } else if d.len() <= 3 {
        base64_block(d)
    } else {
        base64_block(d) + base64_bytes(d.subrange(3, d.len() as int))
    }
}

/// Every character of an encoding is ASCII.
proof fn lemma_base64_ascii(d: Seq<u8>)
    ensures
        forall|i: int| 0 <= i < base64_bytes(d).len() ==> base64_bytes(d)[i] < 128,
    decreases d.len(),
{
    if d.len() > 0 {
        let block = base64_block(d);
        assert(block.len() == 4);
        assert(forall|j: int| 0 <= j < 4 ==> block[j] < 128);
        if d.len() > 3 {
            let rest = d.subrange(3, d.len() as int);
            lemma_base64_ascii(rest);
            assert forall|i: int| 0 <= i < base64_bytes(d).len() implies base64_bytes(d)[i] < 128 by {
                if i >= 4 {
                    assert(base64_bytes(d)[i] == base64_bytes(rest)[i - 4]);
                }
            }
        }
    }
}

fn digit(v: u32) -> (r: u8)
    requires
        v < 64,
    ensures
        r == base64_digit(v as nat),
{
    if v < 26 {
        65 + v as u8
    } else if v < 52 {
        97 + (v - 26) as u8
    } else if v < 62 {
        48 + (v - 52) as u8
    } else if v == 62 {
        43
    } else {
        47
    }
}

/// Relies on std's `String::from_utf8`: ASCII bytes are valid UTF-8, one
/// character per byte.
#[verifier::external_body]
fn ascii_to_string(bytes: Vec<u8>) -> (r: String)
    requires
        forall|i: int| 0 <= i < bytes@.len() ==> bytes@[i] < 128,
    ensures
        r@ == bytes@.map_values(|b: u8| b as char),
{
    String::from_utf8(bytes).unwrap()
}

/// The base64 encoding of the UTF-8 bytes of `data`.
pub fn base64_encode(data: &str) -> (r: String)
    ensures
        r@ == base64_bytes(data.spec_bytes()).map_values(|b: u8| b as char),
{
    let bytes = data.as_bytes();
    let len = bytes.len();
    let ghost d = bytes@;
    let mut output: Vec<u8> = Vec::new();
    let mut i: usize = 0;
    proof {
        assert(d.subrange(0, d.len() as int) =~= d);
    }
    while i < len
        invariant
            len == d.len(),
            bytes@ == d,
            i <= len,
            output@ + base64_bytes(d.subrange(i as int, len as int)) == base64_bytes(d),
        decreases len - i,
    {
        let ghost rest = d.subrange(i as int, len as int);
        let b0 = bytes[i] as u32;
        let b1 = if len - i > 1 {
            bytes[i + 1] as u32
        } else {
            0
        };
        let b2 = if len - i > 2 {
            bytes[i + 2] as u32
        } else {
            0
        };
        let ghost before = output@;
        output.push(digit(b0 / 4));
        output.push(digit((b0 % 4) * 16 + b1 / 16));
        if len - i > 1 {
            output.push(digit((b1 % 16) * 4 + b2 / 64));
        } else {
            output.push(61);
        }
        if len - i > 2 {
            output.push(digit(b2 % 64));
        } else {
            output.push(61);
        }
        proof {
            assert(output@ =~= before + base64_block(rest));
        }
        if len - i <= 3 {
            proof {
                assert(base64_bytes(rest) == base64_block(rest));
                assert(d.subrange(len as int, len as int) =~= Seq::<u8>::empty());
                assert(output@ + base64_bytes(d.subrange(len as int, len as int)) =~= output@);
            }
            i = len;
        } else {
            proof {
                assert(rest.subrange(3, rest.len() as int) =~= d.subrange(i + 3, len as int));
                assert(output@ + base64_bytes(d.subrange(i + 3, len as int)) =~= before
                    + base64_bytes(rest));
            }
            i = i + 3;
        }
    }
    proof {
        assert(d.subrange(len as int, len as int) =~= Seq::<u8>::empty());
        assert(output@ + Seq::<u8>::empty() =~= output@);
        lemma_base64_ascii(d);
    }
    ascii_to_string(output)
}

} // verus!
