//! Base64url encoding without padding: the alphabet used by the credential
//! wire format for the header, payload and signature segments.
//!
//! Encoding and decoding are defined as specification functions and
//! implemented by verified executable functions; decoding is strict (it
//! rejects stray trailing bits), and decoding inverts encoding.

use vstd::prelude::*;

verus! {

/// The alphabet byte for a six-bit value.
pub open spec fn b64_char(v: u8) -> u8
    recommends
        v < 64,
{
    if v < 26 {
        (0x41 + v) as u8  // 'A'..='Z'
    } else if v < 52 {
        (0x61 + (v - 26)) as u8  // 'a'..='z'
    } else if v < 62 {
        (0x30 + (v - 52)) as u8  // '0'..='9'
    } else if v == 62 {
        0x2d  // '-'
    } else {
        0x5f  // '_'
    }
}

/// The six-bit value of an alphabet byte, or `None` for a byte outside the
/// alphabet.
pub open spec fn b64_val(c: u8) -> Option<u8> {
    if 0x41 <= c <= 0x5a {
        Some((c - 0x41) as u8)
    } else if 0x61 <= c <= 0x7a {
        Some((c - 0x61 + 26) as u8)
    } else if 0x30 <= c <= 0x39 {
        Some((c - 0x30 + 52) as u8)
    } else if c == 0x2d {
        Some(62u8)
    } else if c == 0x5f {
        Some(63u8)
    } else {
        None
    }
}

/// True when the byte belongs to the base64url alphabet.
pub open spec fn is_b64_byte(c: u8) -> bool {
    b64_val(c) is Some
}

/// True when every byte of the sequence belongs to the base64url alphabet.
pub open spec fn is_b64url_seq(v: Seq<u8>) -> bool {
    forall|i: int| 0 <= i < v.len() ==> #[trigger] is_b64_byte(v[i])
}

/// Base64url encoding without padding, three input bytes to four alphabet
/// bytes, with two- and three-byte tails for the last one or two input bytes.
pub open spec fn b64_encode(s: Seq<u8>) -> Seq<u8>
    decreases s.len(),
{
    if s.len() == 0 {
        Seq::empty()
    } else if s.len() == 1 {
        let b0 = s[0];
        seq![b64_char(b0 / 4), b64_char(((b0 % 4) * 16) as u8)]
    } else if s.len() == 2 {
        let b0 = s[0];
        let b1 = s[1];
        seq![
            b64_char(b0 / 4),
            b64_char(((b0 % 4) * 16 + b1 / 16) as u8),
            b64_char(((b1 % 16) * 4) as u8),
        ]
    } else {
        let b0 = s[0];
        let b1 = s[1];
        let b2 = s[2];
        seq![
            b64_char(b0 / 4),
            b64_char(((b0 % 4) * 16 + b1 / 16) as u8),
            b64_char(((b1 % 16) * 4 + b2 / 64) as u8),
            b64_char((b2 % 64) as u8),
        ] + b64_encode(s.skip(3))
    }
}

/// Strict base64url decoding without padding: a length of one modulo four,
/// a byte outside the alphabet, or non-zero trailing bits make the input
/// invalid.
pub open spec fn b64_decode(s: Seq<u8>) -> Option<Seq<u8>>
    decreases s.len(),
{
    if s.len() == 0 {
        Some(Seq::empty())
    } else if s.len() == 1 {
        None
    } else if s.len() == 2 {
        match (b64_val(s[0]), b64_val(s[1])) {
            (Some(v0), Some(v1)) => if v1 % 16 == 0 {
                Some(seq![(v0 * 4 + v1 / 16) as u8])
            } else {
                None
            },
            _ => None,
        }
    } else if s.len() == 3 {
        match (b64_val(s[0]), b64_val(s[1]), b64_val(s[2])) {
            (Some(v0), Some(v1), Some(v2)) => if v2 % 4 == 0 {
                Some(seq![(v0 * 4 + v1 / 16) as u8, ((v1 % 16) * 16 + v2 / 4) as u8])
            } else {
                None
            },
            _ => None,
        }
    } else {
        match (b64_val(s[0]), b64_val(s[1]), b64_val(s[2]), b64_val(s[3])) {
            (Some(v0), Some(v1), Some(v2), Some(v3)) => match b64_decode(s.skip(4)) {
                Some(rest) => Some(
                    seq![
                        (v0 * 4 + v1 / 16) as u8,
                        ((v1 % 16) * 16 + v2 / 4) as u8,
                        ((v2 % 4) * 64 + v3) as u8,
                    ] + rest,
                ),
                None => None,
            },
            _ => None,
        }
    }
}

/// Decoding an alphabet byte gives back the six-bit value it encodes.
pub proof fn lemma_b64_val_char(v: u8)
    requires
        v < 64,
    ensures
        b64_val(b64_char(v)) == Some(v),
{
}

/// Every encoded byte lies in the alphabet; in particular it is ASCII and is
/// not a dot (the segment separator of the wire format).
pub proof fn lemma_b64_encode_bytes(s: Seq<u8>)
    ensures
        forall|i: int|
            0 <= i < b64_encode(s).len() ==> #[trigger] is_b64_byte(b64_encode(s)[i]),
    decreases s.len(),
{
    if s.len() == 0 {
    } else if s.len() == 1 {
        let b0 = s[0];
        lemma_b64_val_char((b0 / 4) as u8);
        lemma_b64_val_char(((b0 % 4) * 16) as u8);
    } else if s.len() == 2 {
        let b0 = s[0];
        let b1 = s[1];
        lemma_b64_val_char((b0 / 4) as u8);
        lemma_b64_val_char(((b0 % 4) * 16 + b1 / 16) as u8);
        lemma_b64_val_char(((b1 % 16) * 4) as u8);
    } else {
        let b0 = s[0];
        let b1 = s[1];
        let b2 = s[2];
        lemma_b64_val_char((b0 / 4) as u8);
        lemma_b64_val_char(((b0 % 4) * 16 + b1 / 16) as u8);
        lemma_b64_val_char(((b1 % 16) * 4 + b2 / 64) as u8);
        lemma_b64_val_char((b2 % 64) as u8);
        lemma_b64_encode_bytes(s.skip(3));
        assert forall|i: int| 0 <= i < b64_encode(s).len() implies #[trigger] is_b64_byte(
            b64_encode(s)[i],
        ) by {
            if i >= 4 {
                assert(b64_encode(s)[i] == b64_encode(s.skip(3))[i - 4]);
            }
        }
    }
}

/// An alphabet byte is ASCII and differs from the dot separator.
pub proof fn lemma_b64_byte_shape(c: u8)
    requires
        is_b64_byte(c),
    ensures
        c < 0x80,
        c != 0x2e,
{
}

/// Encoded output never holds a dot and stays ASCII.
pub proof fn lemma_b64_encode_no_dot(s: Seq<u8>)
    ensures
        forall|i: int|
            #![trigger b64_encode(s)[i]]
            0 <= i < b64_encode(s).len() ==> b64_encode(s)[i] != 0x2e && b64_encode(s)[i] < 0x80,
{
    lemma_b64_encode_bytes(s);
    assert forall|i: int| 0 <= i < b64_encode(s).len() implies #[trigger] b64_encode(s)[i] != 0x2e
        && b64_encode(s)[i] < 0x80 by {
        lemma_b64_byte_shape(b64_encode(s)[i]);
    }
}

/// Every byte of an alphabet-only sequence is ASCII and is not a dot.
pub proof fn lemma_b64url_seq_shape(v: Seq<u8>)
    requires
        is_b64url_seq(v),
    ensures
        forall|i: int| #![trigger v[i]] 0 <= i < v.len() ==> v[i] != 0x2e && v[i] < 0x80,
{
    assert forall|i: int| 0 <= i < v.len() implies #[trigger] v[i] != 0x2e && v[i] < 0x80 by {
        assert(is_b64_byte(v[i]));
        lemma_b64_byte_shape(v[i]);
    }
}

/// Encoding distributes over concatenation when the first part consists of
/// whole three-byte groups.
pub proof fn lemma_b64_encode_concat(a: Seq<u8>, b: Seq<u8>)
    requires
        a.len() % 3 == 0,
    ensures
        b64_encode(a + b) == b64_encode(a) + b64_encode(b),
    decreases a.len(),
{
    if a.len() == 0 {
        assert(a + b =~= b);
        assert(b64_encode(a) + b64_encode(b) =~= b64_encode(b));
    } else {
        let ab = a + b;
        assert(ab.len() >= 3);
        lemma_b64_encode_concat(a.skip(3), b);
        assert(ab.skip(3) =~= a.skip(3) + b);
        assert(b64_encode(a + b) =~= b64_encode(a) + b64_encode(b));
    }
}

/// Decoding inverts encoding.
pub proof fn lemma_b64_decode_encode(s: Seq<u8>)
    ensures
        b64_decode(b64_encode(s)) == Some(s),
    decreases s.len(),
{
    if s.len() == 0 {
        assert(b64_decode(b64_encode(s)) =~= Some(s));
    } else if s.len() == 1 {
        let b0 = s[0];
        let v0 = (b0 / 4) as u8;
        let v1 = ((b0 % 4) * 16) as u8;
        lemma_b64_val_char(v0);
        lemma_b64_val_char(v1);
        assert(v1 % 16 == 0);
        assert(v0 * 4 + v1 / 16 == b0);
        assert(b64_decode(b64_encode(s)).unwrap() =~= s);
    } else if s.len() == 2 {
        let b0 = s[0];
        let b1 = s[1];
        let v0 = (b0 / 4) as u8;
        let v1 = ((b0 % 4) * 16 + b1 / 16) as u8;
        let v2 = ((b1 % 16) * 4) as u8;
        lemma_b64_val_char(v0);
        lemma_b64_val_char(v1);
        lemma_b64_val_char(v2);
        assert(v2 % 4 == 0);
        assert(v1 / 16 == b0 % 4 && v1 % 16 == b1 / 16) by {
            assert(b1 / 16 < 16);
        }
        assert(v0 * 4 + v1 / 16 == b0);
        assert((v1 % 16) * 16 + v2 / 4 == b1);
        assert(b64_decode(b64_encode(s)).unwrap() =~= s);
    } else {
        let b0 = s[0];
        let b1 = s[1];
        let b2 = s[2];
        let v0 = (b0 / 4) as u8;
        let v1 = ((b0 % 4) * 16 + b1 / 16) as u8;
        let v2 = ((b1 % 16) * 4 + b2 / 64) as u8;
        let v3 = (b2 % 64) as u8;
        lemma_b64_val_char(v0);
        lemma_b64_val_char(v1);
        lemma_b64_val_char(v2);
        lemma_b64_val_char(v3);
        lemma_b64_decode_encode(s.skip(3));
        let enc = b64_encode(s);
        let group = seq![b64_char(v0), b64_char(v1), b64_char(v2), b64_char(v3)];
        assert(enc =~= group + b64_encode(s.skip(3)));
        assert(enc.len() >= 4);
        assert(enc[0] == b64_char(v0) && enc[1] == b64_char(v1) && enc[2] == b64_char(v2)
            && enc[3] == b64_char(v3));
        assert(enc.skip(4) =~= b64_encode(s.skip(3)));
        assert(v1 / 16 == b0 % 4 && v1 % 16 == b1 / 16) by {
            assert(b1 / 16 < 16);
        }
        assert(v2 / 4 == b1 % 16 && v2 % 4 == b2 / 64) by {
            assert(b2 / 64 < 4);
        }
        assert(v0 * 4 + v1 / 16 == b0);
        assert((v1 % 16) * 16 + v2 / 4 == b1);
        assert((v2 % 4) * 64 + v3 == b2);
        assert(b64_decode(enc).unwrap() =~= s);
    }
}

/// An alphabet byte is the encoding of the value it decodes to.
pub proof fn lemma_b64_char_val(c: u8)
    ensures
        b64_val(c) matches Some(v) ==> b64_char(v) == c,
{
}

/// Strict decoding only accepts canonical encodings: encoding the decoded
/// bytes gives back the input.
pub proof fn lemma_b64_encode_decode(s: Seq<u8>)
    ensures
        b64_decode(s) matches Some(b) ==> b64_encode(b) == s,
    decreases s.len(),
{
    if b64_decode(s) is Some {
        let b = b64_decode(s).unwrap();
        if s.len() == 0 {
            assert(b64_encode(b) =~= s);
        } else if s.len() == 2 {
            let v0 = b64_val(s[0]).unwrap();
            let v1 = b64_val(s[1]).unwrap();
            lemma_b64_char_val(s[0]);
            lemma_b64_char_val(s[1]);
            let x = (v0 * 4 + v1 / 16) as u8;
            assert(v1 / 16 < 4);
            assert(x / 4 == v0 && (x % 4) * 16 == v1);
            assert(b64_encode(b) =~= s);
        } else if s.len() == 3 {
            let v0 = b64_val(s[0]).unwrap();
            let v1 = b64_val(s[1]).unwrap();
            let v2 = b64_val(s[2]).unwrap();
            lemma_b64_char_val(s[0]);
            lemma_b64_char_val(s[1]);
            lemma_b64_char_val(s[2]);
            let x0 = (v0 * 4 + v1 / 16) as u8;
            let x1 = ((v1 % 16) * 16 + v2 / 4) as u8;
            assert(v1 / 16 < 4 && v2 / 4 < 16);
            assert(x0 / 4 == v0 && x0 % 4 == v1 / 16);
            assert(x1 / 16 == v1 % 16 && x1 % 16 == v2 / 4);
            assert((x0 % 4) * 16 + x1 / 16 == v1);
            assert((x1 % 16) * 4 == v2);
            assert(b64_encode(b) =~= s);
        } else {
            let v0 = b64_val(s[0]).unwrap();
            let v1 = b64_val(s[1]).unwrap();
            let v2 = b64_val(s[2]).unwrap();
            let v3 = b64_val(s[3]).unwrap();
            lemma_b64_char_val(s[0]);
            lemma_b64_char_val(s[1]);
            lemma_b64_char_val(s[2]);
            lemma_b64_char_val(s[3]);
            lemma_b64_encode_decode(s.skip(4));
            let rest = b64_decode(s.skip(4)).unwrap();
            let x0 = (v0 * 4 + v1 / 16) as u8;
            let x1 = ((v1 % 16) * 16 + v2 / 4) as u8;
            let x2 = ((v2 % 4) * 64 + v3) as u8;
            assert(v1 / 16 < 4 && v2 / 4 < 16 && v3 < 64);
            assert(x0 / 4 == v0 && x0 % 4 == v1 / 16);
            assert(x1 / 16 == v1 % 16 && x1 % 16 == v2 / 4);
            assert(x2 / 64 == v2 % 4 && x2 % 64 == v3);
            assert((x0 % 4) * 16 + x1 / 16 == v1);
            assert((x1 % 16) * 4 + x2 / 64 == v2);
            let g = seq![x0, x1, x2];
            assert(b =~= g + rest);
            assert(b.len() >= 3);
            assert(b[0] == x0 && b[1] == x1 && b[2] == x2);
            assert(b.skip(3) =~= rest);
            assert(b64_encode(b) =~= s);
        }
    }
}

/// The alphabet byte for a six-bit value, as executable code.
fn b64_char_exec(v: u8) -> (c: u8)
    requires
        v < 64,
    ensures
        c == b64_char(v),
{
    if v < 26 {
        0x41 + v
    } else if v < 52 {
        0x61 + (v - 26)
    } else if v < 62 {
        0x30 + (v - 52)
    } else if v == 62 {
        0x2d
    } else {
        0x5f
    }
}

/// The six-bit value of an alphabet byte, as executable code.
fn b64_val_exec(c: u8) -> (v: Option<u8>)
    ensures
        v == b64_val(c),
{
    if 0x41 <= c && c <= 0x5a {
        Some(c - 0x41)
    } else if 0x61 <= c && c <= 0x7a {
        Some(c - 0x61 + 26)
    } else if 0x30 <= c && c <= 0x39 {
        Some(c - 0x30 + 52)
    } else if c == 0x2d {
        Some(62)
    } else if c == 0x5f {
        Some(63)
    } else {
        None
    }
}

/// Encode a byte sequence as padding-free base64url.
pub fn base64url_encode(input: &Vec<u8>) -> (out: Vec<u8>)
    ensures
        out@ == b64_encode(input@),
{
    let mut out: Vec<u8> = Vec::new();
    let mut i: usize = 0;
    while input.len() - i >= 3
        invariant
            i % 3 == 0,
            i <= input.len(),
            out@ == b64_encode(input@.take(i as int)),
        decreases input.len() - i,
    {
        let b0 = input[i];
        let b1 = input[i + 1];
        let b2 = input[i + 2];
        out.push(b64_char_exec(b0 / 4));
        out.push(b64_char_exec((b0 % 4) * 16 + b1 / 16));
        out.push(b64_char_exec((b1 % 16) * 4 + b2 / 64));
        out.push(b64_char_exec(b2 % 64));
        proof {
            lemma_b64_encode_concat(input@.take(i as int), input@.subrange(i as int, i + 3));
            assert(input@.take(i + 3) =~= input@.take(i as int) + input@.subrange(
                i as int,
                i + 3,
            ));
            let g = input@.subrange(i as int, i + 3);
            assert(g.len() == 3 && g[0] == b0 && g[1] == b1 && g[2] == b2);
            assert(g.skip(3) =~= Seq::<u8>::empty());
            reveal_with_fuel(b64_encode, 2);
            assert(out@ =~= b64_encode(input@.take(i + 3)));
        }
        i = i + 3;
    }
    let ghost done = input@.take(i as int);
    let ghost tail = input@.skip(i as int);
    proof {
        lemma_b64_encode_concat(done, tail);
        assert(input@ =~= done + tail);
    }
    if input.len() - i == 1 {
        let b0 = input[i];
        out.push(b64_char_exec(b0 / 4));
        out.push(b64_char_exec((b0 % 4) * 16));
        proof {
            assert(tail.len() == 1 && tail[0] == b0);
            assert(out@ =~= b64_encode(input@));
        }
    } else if input.len() - i == 2 {
        let b0 = input[i];
        let b1 = input[i + 1];
        out.push(b64_char_exec(b0 / 4));
        out.push(b64_char_exec((b0 % 4) * 16 + b1 / 16));
        out.push(b64_char_exec((b1 % 16) * 4));
        proof {
            assert(tail.len() == 2 && tail[0] == b0 && tail[1] == b1);
            assert(out@ =~= b64_encode(input@));
        }
    } else {
        proof {
            assert(tail.len() == 0);
            assert(out@ =~= b64_encode(input@));
        }
    }
    out
}

/// Decode padding-free base64url, strictly.
pub fn base64url_decode(input: &Vec<u8>) -> (r: Option<Vec<u8>>)
    ensures
        match b64_decode(input@) {
            Some(b) => r matches Some(v) && v@ == b,
            None => r is None,
        },
{
    let mut out: Vec<u8> = Vec::new();
    let mut i: usize = 0;
    proof {
        assert(input@.skip(0) =~= input@);
        if b64_decode(input@) is Some {
            let b = b64_decode(input@).unwrap();
            assert(out@ + b =~= b);
        }
    }
    while input.len() - i >= 4
        invariant
            i % 4 == 0,
            i <= input.len(),
            match b64_decode(input@) {
                Some(b) => b64_decode(input@.skip(i as int)) matches Some(rest) && b == out@
                    + rest,
                None => b64_decode(input@.skip(i as int)) is None,
            },
        decreases input.len() - i,
    {
        let v0 = b64_val_exec(input[i]);
        let v1 = b64_val_exec(input[i + 1]);
        let v2 = b64_val_exec(input[i + 2]);
        let v3 = b64_val_exec(input[i + 3]);
        let ghost pre = input@.skip(i as int);
        proof {
            assert(pre.len() >= 4);
            assert(pre[0] == input@[i as int] && pre[1] == input@[i + 1] && pre[2] == input@[i + 2]
                && pre[3] == input@[i + 3]);
            assert(pre.skip(4) =~= input@.skip(i + 4));
        }
        match (v0, v1, v2, v3) {
            (Some(v0), Some(v1), Some(v2), Some(v3)) => {
                let ghost old_out = out@;
                out.push(v0 * 4 + v1 / 16);
                out.push((v1 % 16) * 16 + v2 / 4);
                out.push((v2 % 4) * 64 + v3);
                proof {
                    let group = seq![
                        (v0 * 4 + v1 / 16) as u8,
                        ((v1 % 16) * 16 + v2 / 4) as u8,
                        ((v2 % 4) * 64 + v3) as u8,
                    ];
                    assert(out@ =~= old_out + group);
                    if b64_decode(input@) is Some {
                        let b = b64_decode(input@).unwrap();
                        let rest = b64_decode(pre).unwrap();
                        assert(rest == group + b64_decode(pre.skip(4)).unwrap());
                        assert(b =~= out@ + b64_decode(input@.skip(i + 4)).unwrap());
                    }
                }
                i = i + 4;
            },
            _ => {
                proof {
                    assert(b64_decode(pre) is None);
                }
                return None;
            },
        }
    }
    let ghost tail = input@.skip(i as int);
    let n = input.len() - i;
    if n == 0 {
        proof {
            if b64_decode(input@) is Some {
                let b = b64_decode(input@).unwrap();
                assert(b64_decode(tail) == Some(Seq::<u8>::empty()));
                assert(b =~= out@);
            }
        }
        Some(out)
    } else if n == 1 {
        proof {
            assert(b64_decode(tail) is None);
        }
        None
    } else if n == 2 {
        let v0 = b64_val_exec(input[i]);
        let v1 = b64_val_exec(input[i + 1]);
        proof {
            assert(tail.len() == 2 && tail[0] == input@[i as int] && tail[1] == input@[i + 1]);
        }
        match (v0, v1) {
            (Some(v0), Some(v1)) => {
                if v1 % 16 == 0 {
                    out.push(v0 * 4 + v1 / 16);
                    proof {
                        assert(b64_decode(tail).unwrap() =~= seq![(v0 * 4 + v1 / 16) as u8]);
                        if b64_decode(input@) is Some {
                            let b = b64_decode(input@).unwrap();
                            assert(b =~= out@);
                        }
                    }
                    Some(out)
                } else {
                    None
                }
            },
            _ => None,
        }
    } else {
        let v0 = b64_val_exec(input[i]);
        let v1 = b64_val_exec(input[i + 1]);
        let v2 = b64_val_exec(input[i + 2]);
        proof {
            assert(tail.len() == 3 && tail[0] == input@[i as int] && tail[1] == input@[i + 1]
                && tail[2] == input@[i + 2]);
        }
        match (v0, v1, v2) {
            (Some(v0), Some(v1), Some(v2)) => {
                if v2 % 4 == 0 {
                    out.push(v0 * 4 + v1 / 16);
                    out.push((v1 % 16) * 16 + v2 / 4);
                    proof {
                        assert(b64_decode(tail).unwrap() =~= seq![
                            (v0 * 4 + v1 / 16) as u8,
                            ((v1 % 16) * 16 + v2 / 4) as u8,
                        ]);
                        if b64_decode(input@) is Some {
                            let b = b64_decode(input@).unwrap();
                            assert(b =~= out@);
                        }
                    }
                    Some(out)
                } else {
                    None
                }
            },
            _ => None,
        }
    }
}

} // verus!
