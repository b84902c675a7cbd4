//! The JSON fragment the claims payload is written in: string escaping and
//! unescaping, decimal integers, and literal matching, all at byte level.
//!
//! Multi-byte UTF-8 sequences pass through a JSON string body untouched
//! (every byte of such a sequence is at least 0x80, so none collides with a
//! quote, a backslash or a control character); each scanned string body is
//! checked for UTF-8 validity by the caller.

use vstd::prelude::*;
use vstd::string::StringSliceAdditionalSpecFns;

verus! {

/// True for an ASCII decimal digit.
pub open spec fn is_digit(b: u8) -> bool {
    0x30 <= b <= 0x39
}

/// The lowercase hexadecimal digit for a value below sixteen.
pub open spec fn hex_digit(v: u8) -> u8
    recommends
        v < 16,
{
    if v < 10 {
        (0x30 + v) as u8
    } else {
        (0x61 + (v - 10)) as u8
    }
}

/// The value of a canonical (lowercase) hexadecimal digit, or `None`.
pub open spec fn hex_val(c: u8) -> Option<u8> {
    if 0x30 <= c <= 0x39 {
        Some((c - 0x30) as u8)
    } else if 0x61 <= c <= 0x66 {
        Some((c - 0x61 + 10) as u8)
    } else {
        None
    }
}

/// A canonical hexadecimal digit is the one its value writes.
pub proof fn lemma_hex_digit_val(c: u8)
    ensures
        hex_val(c) matches Some(v) ==> hex_digit(v) == c,
{
}

/// True for an escape value that has a named short form, which the
/// canonical format always uses instead of a `\u` escape.
pub open spec fn has_short_escape(v: u8) -> bool {
    v == 0x08 || v == 0x09 || v == 0x0a || v == 0x0c || v == 0x0d
}

/// The escape sequence a byte is written as inside a JSON string: quote and
/// backslash get a two-byte escape, the named control characters get their
/// short forms, the remaining control characters get a `\u00XX` escape, and
/// every other byte stands for itself.
pub open spec fn esc_byte(b: u8) -> Seq<u8> {
    if b == 0x22 {
        seq![0x5c, 0x22]
    } else if b == 0x5c {
        seq![0x5c, 0x5c]
    } else if b == 0x08 {
        seq![0x5c, 0x62]
    } else if b == 0x09 {
        seq![0x5c, 0x74]
    } else if b == 0x0a {
        seq![0x5c, 0x6e]
    } else if b == 0x0c {
        seq![0x5c, 0x66]
    } else if b == 0x0d {
        seq![0x5c, 0x72]
    } else if b < 0x20 {
        seq![0x5c, 0x75, 0x30, 0x30, hex_digit(b / 16), hex_digit(b % 16)]
    } else {
        seq![b]
    }
}

/// A byte sequence written as the body of a JSON string.
pub open spec fn escape_bytes(s: Seq<u8>) -> Seq<u8>
    decreases s.len(),
{
    if s.len() == 0 {
        Seq::empty()
    } else {
        esc_byte(s[0]) + escape_bytes(s.skip(1))
    }
}

/// Escaping distributes over concatenation.
pub proof fn lemma_escape_concat(a: Seq<u8>, b: Seq<u8>)
    ensures
        escape_bytes(a + b) == escape_bytes(a) + escape_bytes(b),
    decreases a.len(),
{
    if a.len() == 0 {
        assert(a + b =~= b);
        assert(escape_bytes(a) + escape_bytes(b) =~= escape_bytes(b));
    } else {
        lemma_escape_concat(a.skip(1), b);
        assert((a + b).skip(1) =~= a.skip(1) + b);
        assert(escape_bytes(a + b) =~= escape_bytes(a) + escape_bytes(b));
    }
}

/// Scan the body of a JSON string up to, but not including, the closing
/// quote: the unescaped content and the suffix that starts at the closing
/// quote, or `None` where the body is not in the canonical form this crate
/// writes (a raw control character, an unknown escape, a `\u` escape for
/// anything that is not written that way — only control characters without
/// a named short form are, with lowercase hexadecimal digits — or a missing
/// closing quote).
pub open spec fn scan_jstr(s: Seq<u8>) -> Option<(Seq<u8>, Seq<u8>)>
    decreases s.len(),
{
    if s.len() == 0 {
        None
    } else if s[0] == 0x22 {
        Some((Seq::empty(), s))
    } else if s[0] == 0x5c {
        if s.len() < 2 {
            None
        } else {
            let e = s[1];
            if e == 0x22 || e == 0x5c {
                scan_jstr_cons(e, scan_jstr(s.skip(2)))
            } else if e == 0x62 {
                scan_jstr_cons(0x08, scan_jstr(s.skip(2)))
            } else if e == 0x74 {
                scan_jstr_cons(0x09, scan_jstr(s.skip(2)))
            } else if e == 0x6e {
                scan_jstr_cons(0x0a, scan_jstr(s.skip(2)))
            } else if e == 0x66 {
                scan_jstr_cons(0x0c, scan_jstr(s.skip(2)))
            } else if e == 0x72 {
                scan_jstr_cons(0x0d, scan_jstr(s.skip(2)))
            } else if e == 0x75 {
                if s.len() < 6 {
                    None
                } else {
                    match (hex_val(s[2]), hex_val(s[3]), hex_val(s[4]), hex_val(s[5])) {
                        (Some(h0), Some(h1), Some(h2), Some(h3)) => {
                            let v = h0 * 4096 + h1 * 256 + h2 * 16 + h3;
                            if v < 0x20 && !has_short_escape(v as u8) {
                                scan_jstr_cons(v as u8, scan_jstr(s.skip(6)))
                            } else {
                                None
                            }
                        },
                        _ => None,
                    }
                }
            } else {
                None
            }
        }
    } else if s[0] < 0x20 {
        None
    } else {
        scan_jstr_cons(s[0], scan_jstr(s.skip(1)))
    }
}

/// Prepend one unescaped byte to a scan result.
pub open spec fn scan_jstr_cons(b: u8, r: Option<(Seq<u8>, Seq<u8>)>) -> Option<
    (Seq<u8>, Seq<u8>),
> {
    match r {
        Some(p) => Some((seq![b] + p.0, p.1)),
        None => None,
    }
}

/// The value of a lowercase hexadecimal digit is the digit's value.
pub proof fn lemma_hex_val_digit(v: u8)
    requires
        v < 16,
    ensures
        hex_val(hex_digit(v)) == Some(v),
{
}

/// Scanning an escaped body followed by a quote yields the original bytes
/// and stops at the quote.
pub proof fn lemma_scan_escape(b: Seq<u8>, rest: Seq<u8>)
    requires
        rest.len() > 0,
        rest[0] == 0x22,
    ensures
        scan_jstr(escape_bytes(b) + rest) == Some((b, rest)),
    decreases b.len(),
{
    if b.len() == 0 {
        assert(escape_bytes(b) + rest =~= rest);
    } else {
        lemma_scan_escape(b.skip(1), rest);
        let s = escape_bytes(b) + rest;
        let e0 = esc_byte(b[0]);
        let tail = escape_bytes(b.skip(1)) + rest;
        assert(s =~= e0 + tail);
        let c = b[0];
        assert(seq![c] + b.skip(1) =~= b);
        if c == 0x22 || c == 0x5c {
            assert(s.len() >= 2 && s[0] == 0x5c && s[1] == c);
            assert(s.skip(2) =~= tail);
        } else if c == 0x08 || c == 0x09 || c == 0x0a || c == 0x0c || c == 0x0d {
            assert(s.len() >= 2 && s[0] == 0x5c);
            assert(s.skip(2) =~= tail);
        } else if c < 0x20 {
            assert(s.len() >= 6);
            assert(s[0] == 0x5c && s[1] == 0x75 && s[2] == 0x30 && s[3] == 0x30 && s[4]
                == hex_digit(c / 16) && s[5] == hex_digit(c % 16));
            lemma_hex_val_digit((c / 16) as u8);
            lemma_hex_val_digit((c % 16) as u8);
            assert(hex_val(s[2]) == Some(0u8) && hex_val(s[3]) == Some(0u8));
            let v = 0 * 4096 + 0 * 256 + (c / 16) * 16 + c % 16;
            assert(v == c);
            assert(s.skip(6) =~= tail);
        } else {
            assert(s[0] == c && c != 0x22 && c != 0x5c && c >= 0x20);
            assert(s.skip(1) =~= tail);
        }
    }
}

/// The scanner only accepts canonical bodies: whatever it scans is the
/// escaped form of its content, followed by the suffix it stops at.
pub proof fn lemma_scan_jstr_inverse(s: Seq<u8>)
    ensures
        scan_jstr(s) matches Some(p) ==> s == escape_bytes(p.0) + p.1,
    decreases s.len(),
{
    if scan_jstr(s) is Some {
        let p = scan_jstr(s).unwrap();
        if s[0] == 0x22 {
            assert(escape_bytes(p.0) + p.1 =~= s);
        } else if s[0] == 0x5c {
            let e = s[1];
            if e == 0x75 {
                let h2 = hex_val(s[4]).unwrap();
                let h3 = hex_val(s[5]).unwrap();
                let v = (h2 * 16 + h3) as u8;
                assert(hex_val(s[2]) == Some(0u8) && hex_val(s[3]) == Some(0u8));
                lemma_hex_digit_val(s[2]);
                lemma_hex_digit_val(s[3]);
                lemma_hex_digit_val(s[4]);
                lemma_hex_digit_val(s[5]);
                assert(v / 16 == h2 && v % 16 == h3);
                lemma_scan_jstr_inverse(s.skip(6));
                let p2 = scan_jstr(s.skip(6)).unwrap();
                assert(esc_byte(v) == seq![
                    0x5cu8,
                    0x75,
                    hex_digit(0),
                    hex_digit(0),
                    hex_digit(v / 16),
                    hex_digit(v % 16),
                ]);
                assert(p.0 == seq![v] + p2.0);
                assert((seq![v] + p2.0)[0] == v);
                assert((seq![v] + p2.0).skip(1) =~= p2.0);
                assert(escape_bytes(p.0) == esc_byte(v) + escape_bytes(p2.0));
                assert(s =~= esc_byte(v) + (escape_bytes(p2.0) + p2.1));
            } else {
                let v: u8 = if e == 0x22 {
                    0x22
                } else if e == 0x5c {
                    0x5c
                } else if e == 0x62 {
                    0x08
                } else if e == 0x74 {
                    0x09
                } else if e == 0x6e {
                    0x0a
                } else if e == 0x66 {
                    0x0c
                } else {
                    0x0d
                };
                lemma_scan_jstr_inverse(s.skip(2));
                let p2 = scan_jstr(s.skip(2)).unwrap();
                assert(esc_byte(v) == seq![0x5cu8, e]);
                assert(p.0 == seq![v] + p2.0);
                assert((seq![v] + p2.0)[0] == v);
                assert((seq![v] + p2.0).skip(1) =~= p2.0);
                assert(escape_bytes(p.0) == esc_byte(v) + escape_bytes(p2.0));
                assert(s =~= esc_byte(v) + (escape_bytes(p2.0) + p2.1));
            }
        } else {
            let v = s[0];
            lemma_scan_jstr_inverse(s.skip(1));
            let p2 = scan_jstr(s.skip(1)).unwrap();
            assert(esc_byte(v) == seq![v]);
            assert(p.0 == seq![v] + p2.0);
            assert((seq![v] + p2.0)[0] == v);
            assert((seq![v] + p2.0).skip(1) =~= p2.0);
            assert(escape_bytes(p.0) == esc_byte(v) + escape_bytes(p2.0));
            assert(s =~= esc_byte(v) + (escape_bytes(p2.0) + p2.1));
        }
    }
}

/// Append the escaped form of the bytes of `piece` to `out`.
pub fn push_escaped(out: &mut Vec<u8>, piece: &str)
    ensures
        final(out)@ == old(out)@ + escape_bytes(piece.spec_bytes()),
{
    let bytes = piece.as_bytes();
    let ghost base = out@;
    let mut k: usize = 0;
    while k < bytes.len()
        invariant
            k <= bytes.len(),
            bytes@ == piece.spec_bytes(),
            out@ == base + escape_bytes(bytes@.take(k as int)),
        decreases bytes.len() - k,
    {
        let b = bytes[k];
        if b == 0x22 {
            out.push(0x5c);
            out.push(0x22);
        } else if b == 0x5c {
            out.push(0x5c);
            out.push(0x5c);
        } else if b == 0x08 {
            out.push(0x5c);
            out.push(0x62);
        } else if b == 0x09 {
            out.push(0x5c);
            out.push(0x74);
        } else if b == 0x0a {
            out.push(0x5c);
            out.push(0x6e);
        } else if b == 0x0c {
            out.push(0x5c);
            out.push(0x66);
        } else if b == 0x0d {
            out.push(0x5c);
            out.push(0x72);
        } else if b < 0x20 {
            out.push(0x5c);
            out.push(0x75);
            out.push(0x30);
            out.push(0x30);
            let hi = b / 16;
            let lo = b % 16;
            out.push(if hi < 10 { 0x30 + hi } else { 0x61 + (hi - 10) });
            out.push(if lo < 10 { 0x30 + lo } else { 0x61 + (lo - 10) });
        } else {
            out.push(b);
        }
        proof {
            lemma_escape_concat(bytes@.take(k as int), seq![b]);
            assert(bytes@.take(k + 1) =~= bytes@.take(k as int) + seq![b]);
            assert(escape_bytes(seq![b]) =~= esc_byte(b)) by {
                assert(seq![b].skip(1) =~= Seq::<u8>::empty());
                reveal_with_fuel(escape_bytes, 2);
            }
            assert(out@ =~= base + escape_bytes(bytes@.take(k + 1)));
        }
        k = k + 1;
    }
    proof {
        assert(bytes@.take(bytes@.len() as int) =~= bytes@);
    }
}

/// The value of a hexadecimal digit, as executable code.
fn hex_val_exec(c: u8) -> (v: Option<u8>)
    ensures
        v == hex_val(c),
{
    if 0x30 <= c && c <= 0x39 {
        Some(c - 0x30)
    } else if 0x61 <= c && c <= 0x66 {
        Some(c - 0x61 + 10)
    } else {
        None
    }
}

/// Scan a JSON string body starting at index `i`: the unescaped content and
/// the index of the closing quote.
pub fn scan_jstr_exec(s: &Vec<u8>, i: usize) -> (r: Option<(Vec<u8>, usize)>)
    requires
        i <= s@.len(),
    ensures
        match scan_jstr(s@.skip(i as int)) {
            Some(p) => r matches Some(q) && q.0@ == p.0 && i <= q.1 <= s@.len() && s@.skip(
                q.1 as int,
            ) == p.1,
            None => r is None,
        },
{
    let mut out: Vec<u8> = Vec::new();
    let mut j: usize = i;
    proof {
        if scan_jstr(s@.skip(i as int)) is Some {
            let p = scan_jstr(s@.skip(i as int)).unwrap();
            assert(out@ + p.0 =~= p.0);
        }
    }
    loop
        invariant
            i <= j <= s@.len(),
            match scan_jstr(s@.skip(i as int)) {
                Some(p) => scan_jstr(s@.skip(j as int)) matches Some(p2) && p.0 == out@ + p2.0
                    && p.1 == p2.1,
                None => scan_jstr(s@.skip(j as int)) is None,
            },
        decreases s@.len() - j,
    {
        let ghost suf = s@.skip(j as int);
        if j == s.len() {
            proof {
                assert(suf.len() == 0);
            }
            return None;
        }
        let b = s[j];
        proof {
            assert(suf[0] == b);
        }
        if b == 0x22 {
            proof {
                if scan_jstr(s@.skip(i as int)) is Some {
                    let p = scan_jstr(s@.skip(i as int)).unwrap();
                    assert(p.0 =~= out@);
                }
            }
            return Some((out, j));
        } else if b == 0x5c {
            if s.len() - j < 2 {
                proof {
                    assert(suf.len() < 2);
                }
                return None;
            }
            let e = s[j + 1];
            proof {
                assert(suf[1] == e);
                assert(suf.skip(2) =~= s@.skip(j + 2));
            }
            let unescaped: u8 = if e == 0x22 {
                0x22
            } else if e == 0x5c {
                0x5c
            } else if e == 0x62 {
                0x08
            } else if e == 0x74 {
                0x09
            } else if e == 0x6e {
                0x0a
            } else if e == 0x66 {
                0x0c
            } else if e == 0x72 {
                0x0d
            } else {
                0
            };
            if e == 0x22 || e == 0x5c || e == 0x62 || e == 0x74 || e == 0x6e || e == 0x66 || e
                == 0x72 {
                let ghost old_out = out@;
                out.push(unescaped);
                proof {
                    if scan_jstr(s@.skip(i as int)) is Some {
                        let p2 = scan_jstr(s@.skip(j as int)).unwrap();
                        let p3 = scan_jstr(s@.skip(j + 2)).unwrap();
                        assert(p2.0 == seq![unescaped] + p3.0);
                        assert(old_out + p2.0 =~= out@ + p3.0);
                    }
                }
                j = j + 2;
            } else if e == 0x75 {
                if s.len() - j < 6 {
                    proof {
                        assert(suf.len() < 6);
                    }
                    return None;
                }
                let h0 = hex_val_exec(s[j + 2]);
                let h1 = hex_val_exec(s[j + 3]);
                let h2 = hex_val_exec(s[j + 4]);
                let h3 = hex_val_exec(s[j + 5]);
                proof {
                    assert(suf[2] == s@[j + 2] && suf[3] == s@[j + 3] && suf[4] == s@[j + 4]
                        && suf[5] == s@[j + 5]);
                    assert(suf.skip(6) =~= s@.skip(j + 6));
                }
                match (h0, h1, h2, h3) {
                    (Some(h0), Some(h1), Some(h2), Some(h3)) => {
                        let v: u32 = (h0 as u32) * 4096 + (h1 as u32) * 256 + (h2 as u32) * 16
                            + (h3 as u32);
                        let short = v == 0x08 || v == 0x09 || v == 0x0a || v == 0x0c || v == 0x0d;
                        if v < 0x20 && !short {
                            let ghost old_out = out@;
                            out.push(v as u8);
                            proof {
                                if scan_jstr(s@.skip(i as int)) is Some {
                                    let p2 = scan_jstr(s@.skip(j as int)).unwrap();
                                    let p3 = scan_jstr(s@.skip(j + 6)).unwrap();
                                    assert(p2.0 == seq![v as u8] + p3.0);
                                    assert(old_out + p2.0 =~= out@ + p3.0);
                                }
                            }
                            j = j + 6;
                        } else {
                            return None;
                        }
                    },
                    _ => {
                        return None;
                    },
                }
            } else {
                return None;
            }
        } else if b < 0x20 {
            return None;
        } else {
            let ghost old_out = out@;
            out.push(b);
            proof {
                assert(suf.skip(1) =~= s@.skip(j + 1));
                if scan_jstr(s@.skip(i as int)) is Some {
                    let p2 = scan_jstr(s@.skip(j as int)).unwrap();
                    let p3 = scan_jstr(s@.skip(j + 1)).unwrap();
                    assert(p2.0 == seq![b] + p3.0);
                    assert(old_out + p2.0 =~= out@ + p3.0);
                }
            }
            j = j + 1;
        }
    }
}

/// Ten to the `k`.
pub open spec fn pow10(k: nat) -> int
    decreases k,
{
    if k == 0 {
        1
    } else {
        10 * pow10((k - 1) as nat)
    }
}

/// `pow10` is positive.
pub proof fn lemma_pow10_pos(k: nat)
    ensures
        pow10(k) >= 1,
    decreases k,
{
    if k != 0 {
        lemma_pow10_pos((k - 1) as nat);
    }
}

/// `pow10` grows with its argument.
pub proof fn lemma_pow10_mono(a: nat, b: nat)
    requires
        a <= b,
    ensures
        pow10(a) <= pow10(b),
        pow10(a) >= 1,
    decreases b,
{
    lemma_pow10_pos(a);
    if a < b {
        lemma_pow10_mono(a, (b - 1) as nat);
        lemma_pow10_pos((b - 1) as nat);
    }
}

/// The decimal digits of a natural number, most significant first, without
/// leading zeros.
pub open spec fn dec_digits(m: nat) -> Seq<u8>
    decreases m,
{
    if m < 10 {
        seq![(0x30 + m) as u8]
    } else {
        dec_digits(m / 10) + seq![(0x30 + m % 10) as u8]
    }
}

/// The decimal bytes of an integer: a minus sign, where negative, followed
/// by the digits of its magnitude.
pub open spec fn int_bytes(n: int) -> Seq<u8> {
    if n < 0 {
        seq![0x2d] + dec_digits((-n) as nat)
    } else {
        dec_digits(n as nat)
    }
}

/// The value of a sequence of decimal digit bytes.
pub open spec fn dec_value(ds: Seq<u8>) -> int
    decreases ds.len(),
{
    if ds.len() == 0 {
        0
    } else {
        dec_value(ds.drop_last()) * 10 + (ds.last() - 0x30)
    }
}

/// The length of the longest prefix of decimal digit bytes.
pub open spec fn digit_run(s: Seq<u8>) -> int
    decreases s.len(),
{
    if s.len() == 0 {
        0
    } else if !is_digit(s[0]) {
        0
    } else {
        1 + digit_run(s.skip(1))
    }
}

/// Scan an unsigned decimal number: at most nineteen digits, no leading
/// zero except for zero itself.
pub open spec fn scan_uint(s: Seq<u8>) -> Option<(int, Seq<u8>)> {
    let k = digit_run(s);
    if k < 1 || k > 19 {
        None
    } else if s[0] == 0x30 && k > 1 {
        None
    } else {
        Some((dec_value(s.take(k)), s.skip(k)))
    }
}

/// Scan a decimal number that must fit a 64-bit signed integer.
pub open spec fn scan_i64(s: Seq<u8>) -> Option<(int, Seq<u8>)> {
    if s.len() > 0 && s[0] == 0x2d {
        match scan_uint(s.skip(1)) {
            Some(p) => if 1 <= p.0 <= 0x8000_0000_0000_0000 {
                Some((-p.0, p.1))
            } else {
                None
            },
            None => None,
        }
    } else {
        match scan_uint(s) {
            Some(p) => if p.0 <= 0x7fff_ffff_ffff_ffff {
                Some(p)
            } else {
                None
            },
            None => None,
        }
    }
}

/// Shape of the decimal digits of a number: at least one digit, all digit
/// bytes, the written value itself, and no leading zero unless the number is
/// zero.
pub proof fn lemma_dec_digits_shape(m: nat)
    ensures
        dec_digits(m).len() >= 1,
        forall|i: int| 0 <= i < dec_digits(m).len() ==> #[trigger] is_digit(dec_digits(m)[i]),
        dec_value(dec_digits(m)) == m,
        m >= 1 ==> dec_digits(m)[0] != 0x30,
        m == 0 ==> dec_digits(m) == seq![0x30u8],
        m < 10 ==> dec_digits(m).len() == 1,
    decreases m,
{
    if m < 10 {
        let ds = dec_digits(m);
        assert(ds =~= seq![(0x30 + m) as u8]);
        assert(ds.drop_last() =~= Seq::<u8>::empty());
        reveal_with_fuel(dec_value, 2);
        assert(dec_value(ds) == m);
        if m == 0 {
            assert(dec_digits(m) =~= seq![0x30u8]);
        }
    } else {
        lemma_dec_digits_shape(m / 10);
        let hd = dec_digits(m / 10);
        let ds = dec_digits(m);
        assert(ds =~= hd + seq![(0x30 + m % 10) as u8]);
        assert(ds.drop_last() =~= hd);
        assert(ds.last() == (0x30 + m % 10) as u8);
        assert(dec_value(ds) == dec_value(hd) * 10 + m % 10);
        assert(dec_value(ds) == (m / 10) * 10 + m % 10);
        assert(ds[0] == hd[0]);
        assert forall|i: int| 0 <= i < ds.len() implies #[trigger] is_digit(ds[i]) by {
            if i < hd.len() {
                assert(ds[i] == hd[i]);
            }
        }
    }
}

/// A number below `pow10(k)` has at most `k` decimal digits.
pub proof fn lemma_dec_digits_len(m: nat, k: nat)
    requires
        k >= 1,
        m < pow10(k),
    ensures
        dec_digits(m).len() <= k,
    decreases m,
{
    if m < 10 {
    } else {
        lemma_pow10_mono(1, k);
        if k == 1 {
            assert(pow10(1) == 10);
            assert(false);
        }
        assert(pow10(k) == 10 * pow10((k - 1) as nat));
        assert(m / 10 < pow10((k - 1) as nat));
        lemma_dec_digits_len(m / 10, (k - 1) as nat);
    }
}

/// A sequence of digit bytes writes a value below `pow10` of its length.
pub proof fn lemma_dec_value_bound(ds: Seq<u8>)
    requires
        forall|i: int| 0 <= i < ds.len() ==> #[trigger] is_digit(ds[i]),
    ensures
        0 <= dec_value(ds) < pow10(ds.len() as nat),
    decreases ds.len(),
{
    if ds.len() == 0 {
    } else {
        assert forall|i: int| 0 <= i < ds.drop_last().len() implies #[trigger] is_digit(
            ds.drop_last()[i],
        ) by {
            assert(ds.drop_last()[i] == ds[i]);
        }
        lemma_dec_value_bound(ds.drop_last());
        assert(is_digit(ds.last()));
        assert(pow10(ds.len() as nat) == 10 * pow10((ds.len() - 1) as nat));
    }
}

/// The digit run of `k` digit bytes followed by anything that does not start
/// with a digit is exactly `k`.
pub proof fn lemma_digit_run_split(s: Seq<u8>, k: int)
    requires
        0 <= k <= s.len(),
        forall|i: int| 0 <= i < k ==> #[trigger] is_digit(s[i]),
    ensures
        digit_run(s) == k + digit_run(s.skip(k)),
    decreases k,
{
    if k == 0 {
        assert(s.skip(0) =~= s);
    } else {
        assert(is_digit(s[0]));
        lemma_digit_run_split(s.skip(1), k - 1);
        assert(s.skip(1).skip(k - 1) =~= s.skip(k));
    }
}

/// The digit run never passes the end of the sequence, and it stops at the
/// first non-digit.
pub proof fn lemma_digit_run_bounds(s: Seq<u8>)
    ensures
        0 <= digit_run(s) <= s.len(),
        forall|i: int| 0 <= i < digit_run(s) ==> #[trigger] is_digit(s[i]),
        digit_run(s) < s.len() ==> !is_digit(s[digit_run(s)]),
    decreases s.len(),
{
    if s.len() == 0 {
    } else if !is_digit(s[0]) {
    } else {
        lemma_digit_run_bounds(s.skip(1));
        assert forall|i: int| 0 <= i < digit_run(s) implies #[trigger] is_digit(s[i]) by {
            if i >= 1 {
                assert(s.skip(1)[i - 1] == s[i]);
            }
        }
        if digit_run(s) < s.len() {
            assert(s.skip(1)[digit_run(s) - 1] == s[digit_run(s)]);
        }
    }
}

/// Scanning the decimal bytes of a 64-bit integer followed by anything that
/// does not start with a digit yields the integer and that suffix.
pub proof fn lemma_scan_int_bytes(n: int, rest: Seq<u8>)
    requires
        -0x8000_0000_0000_0000 <= n <= 0x7fff_ffff_ffff_ffff,
        rest.len() == 0 || !is_digit(rest[0]),
    ensures
        scan_i64(int_bytes(n) + rest) == Some((n, rest)),
{
    assert(pow10(19) == 10_000_000_000_000_000_000) by {
        reveal_with_fuel(pow10, 20);
    }
    let m = (if n < 0 {
        -n
    } else {
        n
    }) as nat;
    lemma_dec_digits_shape(m);
    lemma_dec_digits_len(m, 19);
    let d = dec_digits(m);
    lemma_digit_run_split(d + rest, d.len() as int);
    assert((d + rest).skip(d.len() as int) =~= rest);
    assert(digit_run(rest) == 0);
    assert(digit_run(d + rest) == d.len());
    assert((d + rest).take(d.len() as int) =~= d);
    assert((d + rest)[0] == d[0]);
    if n < 0 {
        let s = int_bytes(n) + rest;
        assert(s[0] == 0x2d);
        assert(s.skip(1) =~= d + rest);
        assert(!is_digit(0x2d));
        assert(m >= 1 ==> d[0] != 0x30);
        assert(scan_uint(d + rest) == Some((n * -1, rest)));
    } else {
        let s = int_bytes(n) + rest;
        assert(s =~= d + rest);
        assert(is_digit(s[0]));
        assert(s[0] != 0x2d);
        if m == 0 {
            assert(d =~= seq![0x30u8]);
            assert(digit_run(d + rest) == 1);
        }
        assert(scan_uint(d + rest) == Some((n, rest)));
    }
}

/// A digit run with a nonzero leading digit writes a positive value.
proof fn lemma_dec_value_pos(ds: Seq<u8>)
    requires
        ds.len() >= 1,
        forall|i: int| 0 <= i < ds.len() ==> #[trigger] is_digit(ds[i]),
        ds[0] != 0x30,
    ensures
        dec_value(ds) >= 1,
    decreases ds.len(),
{
    if ds.len() == 1 {
        assert(ds.last() == ds[0]);
        assert(is_digit(ds[0]));
        assert(ds.drop_last() =~= Seq::<u8>::empty());
        reveal_with_fuel(dec_value, 2);
        assert(dec_value(Seq::<u8>::empty()) == 0);
    } else {
        let hd = ds.drop_last();
        assert forall|i: int| 0 <= i < hd.len() implies #[trigger] is_digit(hd[i]) by {
            assert(hd[i] == ds[i]);
        }
        assert(hd[0] == ds[0]);
        lemma_dec_value_pos(hd);
        assert(is_digit(ds.last()));
    }
}

/// The decimal digits of the value a canonical digit run writes are exactly
/// that run.
pub proof fn lemma_dec_digits_value(ds: Seq<u8>)
    requires
        1 <= ds.len(),
        forall|i: int| 0 <= i < ds.len() ==> #[trigger] is_digit(ds[i]),
        ds.len() == 1 || ds[0] != 0x30,
    ensures
        dec_digits(dec_value(ds) as nat) == ds,
    decreases ds.len(),
{
    lemma_dec_value_bound(ds);
    let m = dec_value(ds);
    if ds.len() == 1 {
        assert(ds.last() == ds[0]);
        assert(ds.drop_last() =~= Seq::<u8>::empty());
        reveal_with_fuel(dec_value, 2);
        assert(dec_value(Seq::<u8>::empty()) == 0);
        assert(dec_value(ds) == dec_value(ds.drop_last()) * 10 + (ds.last() - 0x30));
        assert(is_digit(ds[0]));
        assert(m == ds[0] - 0x30);
        assert(0 <= m < 10);
        assert(dec_digits(m as nat) == seq![(0x30 + m as nat) as u8]);
        assert((0x30 + m as nat) as u8 == ds[0]);
        assert(dec_digits(m as nat) =~= ds);
    } else {
        let hd = ds.drop_last();
        let d = ds.last() - 0x30;
        assert(is_digit(ds.last()));
        assert forall|i: int| 0 <= i < hd.len() implies #[trigger] is_digit(hd[i]) by {
            assert(hd[i] == ds[i]);
        }
        assert(hd[0] == ds[0]);
        lemma_dec_value_pos(hd);
        lemma_dec_value_bound(hd);
        assert(m == dec_value(hd) * 10 + d);
        assert(m >= 10);
        assert(m / 10 == dec_value(hd) && m % 10 == d);
        lemma_dec_digits_value(hd);
        assert(dec_digits(m as nat) == hd + seq![(0x30 + (m as nat) % 10) as u8]);
        assert(dec_digits(m as nat) =~= ds);
    }
}

/// The scanner only accepts canonical decimal forms: whatever `scan_i64`
/// accepts is the decimal bytes of its value followed by the suffix it
/// stops at.
pub proof fn lemma_scan_i64_inverse(s: Seq<u8>)
    ensures
        scan_i64(s) matches Some(p) ==> s == int_bytes(p.0) + p.1,
{
    if scan_i64(s) is Some {
        let p = scan_i64(s).unwrap();
        if s.len() > 0 && s[0] == 0x2d {
            let su = s.skip(1);
            lemma_digit_run_bounds(su);
            let k = digit_run(su);
            let ds = su.take(k);
            assert forall|i: int| 0 <= i < ds.len() implies #[trigger] is_digit(ds[i]) by {
                assert(ds[i] == su[i]);
            }
            assert(ds.len() == 1 || ds[0] != 0x30) by {
                assert(ds[0] == su[0]);
            }
            lemma_dec_digits_value(ds);
            let v = dec_value(ds);
            assert(p.0 == -v && v >= 1);
            assert(int_bytes(p.0) == seq![0x2du8] + dec_digits(v as nat));
            assert(su =~= ds + su.skip(k));
            assert(s =~= (seq![0x2du8] + dec_digits(v as nat)) + su.skip(k));
        } else {
            lemma_digit_run_bounds(s);
            let k = digit_run(s);
            let ds = s.take(k);
            assert forall|i: int| 0 <= i < ds.len() implies #[trigger] is_digit(ds[i]) by {
                assert(ds[i] == s[i]);
            }
            assert(ds.len() == 1 || ds[0] != 0x30) by {
                assert(ds[0] == s[0]);
            }
            lemma_dec_digits_value(ds);
            let v = dec_value(ds);
            lemma_dec_value_bound(ds);
            assert(p.0 == v && v >= 0);
            assert(int_bytes(p.0) == dec_digits(v as nat));
            assert(s =~= ds + s.skip(k));
        }
    }
}

/// Append the decimal digits of an unsigned number to `out`.
fn push_uint(out: &mut Vec<u8>, m: u64)
    ensures
        final(out)@ == old(out)@ + dec_digits(m as nat),
    decreases m,
{
    if m < 10 {
        out.push(0x30 + m as u8);
        proof {
            assert(final(out)@ =~= old(out)@ + dec_digits(m as nat));
        }
    } else {
        push_uint(out, m / 10);
        out.push(0x30 + (m % 10) as u8);
        proof {
            assert(final(out)@ =~= old(out)@ + dec_digits(m as nat));
        }
    }
}

/// Append the decimal bytes of a 64-bit signed integer to `out`.
pub fn push_i64(out: &mut Vec<u8>, n: i64)
    ensures
        final(out)@ == old(out)@ + int_bytes(n as int),
{
    if n < 0 {
        out.push(0x2d);
        let m: u64 = if n == i64::MIN {
            0x8000_0000_0000_0000u64
        } else {
            (-n) as u64
        };
        assert(m as int == -(n as int));
        let ghost mid = out@;
        push_uint(out, m);
        proof {
            assert(out@ =~= old(out)@ + int_bytes(n as int));
        }
    } else {
        push_uint(out, n as u64);
    }
}

/// Scan a decimal number at index `i` that must fit a 64-bit signed
/// integer: the value and the index of the suffix.
pub fn scan_i64_exec(s: &Vec<u8>, i: usize) -> (r: Option<(i64, usize)>)
    requires
        i <= s@.len(),
    ensures
        match scan_i64(s@.skip(i as int)) {
            Some(p) => r matches Some(q) && q.0 as int == p.0 && i <= q.1 <= s@.len() && s@.skip(
                q.1 as int,
            ) == p.1,
            None => r is None,
        },
{
    let neg = i < s.len() && s[i] == 0x2d;
    let start = if neg {
        i + 1
    } else {
        i
    };
    let ghost whole = s@.skip(i as int);
    let ghost su = s@.skip(start as int);
    proof {
        if neg {
            assert(whole[0] == 0x2d);
            assert(whole.skip(1) =~= su);
        } else {
            if whole.len() > 0 {
                assert(whole[0] == s@[i as int]);
            }
            assert(whole =~= su);
        }
    }
    let mut j = start;
    while j < s.len() && j - start < 20 && 0x30 <= s[j] && s[j] <= 0x39
        invariant
            start <= j <= s@.len(),
            j - start <= 20,
            start <= s@.len(),
            su == s@.skip(start as int),
            forall|t: int| start <= t < j ==> is_digit(#[trigger] s@[t]),
        decreases s@.len() - j,
    {
        j = j + 1;
    }
    let k = j - start;
    proof {
        assert forall|t: int| 0 <= t < k implies #[trigger] is_digit(su[t]) by {
            assert(su[t] == s@[start + t]);
        }
        lemma_digit_run_split(su, k as int);
        assert(su.skip(k as int) =~= s@.skip(j as int));
        if k < 20 {
            if j < s.len() {
                assert(s@.skip(j as int)[0] == s@[j as int]);
            }
            assert(digit_run(s@.skip(j as int)) == 0);
            assert(digit_run(su) == k);
        } else {
            lemma_digit_run_bounds(s@.skip(j as int));
            assert(digit_run(su) >= 20);
        }
    }
    if k == 0 || k >= 20 {
        return None;
    }
    if s[start] == 0x30 && k > 1 {
        proof {
            assert(su[0] == s@[start as int]);
        }
        return None;
    }
    proof {
        assert(su[0] == s@[start as int]);
        lemma_dec_value_bound(su.take(k as int));
        assert(pow10(19) == 10_000_000_000_000_000_000) by {
            reveal_with_fuel(pow10, 20);
        }
    }
    let mut acc: u64 = 0;
    let mut t = start;
    while t < j
        invariant
            start <= t <= j <= s@.len(),
            j - start == k,
            k <= 19,
            su == s@.skip(start as int),
            forall|u: int| start <= u < j ==> is_digit(#[trigger] s@[u]),
            forall|u: int| 0 <= u < k ==> #[trigger] is_digit(su[u]),
            acc as int == dec_value(su.take(t - start)),
            (acc as int) < pow10((t - start) as nat),
        decreases j - t,
    {
        proof {
            assert(is_digit(s@[t as int]));
        }
        let d = s[t] - 0x30;
        proof {
            assert(su.take(t - start + 1).drop_last() =~= su.take(t - start));
            assert(su.take(t - start + 1).last() == su[t - start]);
            assert(su[t - start] == s@[t as int]);
            lemma_pow10_mono((t - start + 1) as nat, 19);
            assert(pow10((t - start + 1) as nat) == 10 * pow10((t - start) as nat));
            assert(pow10(19) == 10_000_000_000_000_000_000) by {
                reveal_with_fuel(pow10, 20);
            }
        }
        acc = acc * 10 + (d as u64);
        t = t + 1;
    }
    proof {
        assert(su.take(k as int) =~= su.take(j - start));
        assert(dec_value(su.take(k as int)) == acc as int);
    }
    if neg {
        if acc == 0 || acc > 0x8000_0000_0000_0000u64 {
            return None;
        }
        let v: i64 = if acc == 0x8000_0000_0000_0000u64 {
            i64::MIN
        } else {
            let w = acc as i64;
            -w
        };
        Some((v, j))
    } else {
        if acc > 0x7fff_ffff_ffff_ffffu64 {
            return None;
        }
        Some((acc as i64, j))
    }
}

/// The suffix after a fixed literal, or `None` where the input does not
/// start with that literal.
pub open spec fn expect_lit(s: Seq<u8>, lit: Seq<u8>) -> Option<Seq<u8>> {
    if lit.len() <= s.len() && s.take(lit.len() as int) == lit {
        Some(s.skip(lit.len() as int))
    } else {
        None
    }
}

/// A literal at the front is matched and consumed.
pub proof fn lemma_expect_lit_prefix(l: Seq<u8>, rest: Seq<u8>)
    ensures
        expect_lit(l + rest, l) == Some(rest),
{
    assert((l + rest).take(l.len() as int) =~= l);
    assert((l + rest).skip(l.len() as int) =~= rest);
}

/// A match on a literal reassembles the input from the literal and the
/// suffix.
pub proof fn lemma_expect_lit_inverse(s: Seq<u8>, l: Seq<u8>)
    ensures
        expect_lit(s, l) matches Some(suf) ==> s == l + suf,
{
    if expect_lit(s, l) is Some {
        assert(s =~= s.take(l.len() as int) + s.skip(l.len() as int));
    }
}

/// A first byte different from the literal's first byte fails the match.
pub proof fn lemma_expect_lit_mismatch(s: Seq<u8>, l: Seq<u8>)
    requires
        l.len() > 0,
        s.len() == 0 || s[0] != l[0],
    ensures
        expect_lit(s, l) is None,
{
    if l.len() <= s.len() {
        assert(s.take(l.len() as int)[0] == s[0]);
        if s.take(l.len() as int) == l {
            assert(s.take(l.len() as int)[0] == l[0]);
        }
    }
}

/// Match a fixed literal at index `i`: the index just past it, or `None`.
pub fn expect_lit_exec(s: &Vec<u8>, i: usize, lit: &str) -> (r: Option<usize>)
    requires
        i <= s@.len(),
    ensures
        match expect_lit(s@.skip(i as int), lit.spec_bytes()) {
            Some(suf) => r matches Some(j) && i <= j <= s@.len() && s@.skip(j as int) == suf,
            None => r is None,
        },
{
    let lb = lit.as_bytes();
    let n = lb.len();
    let ghost suf = s@.skip(i as int);
    if s.len() - i < n {
        return None;
    }
    let mut t: usize = 0;
    while t < n
        invariant
            t <= n,
            i + n <= s@.len(),
            s@.len() <= usize::MAX,
            lb@ == lit.spec_bytes(),
            n == lb@.len(),
            suf == s@.skip(i as int),
            forall|u: int| 0 <= u < t ==> #[trigger] suf[u] == lb@[u],
        decreases n - t,
    {
        if s[i + t] != lb[t] {
            proof {
                assert(suf[t as int] == s@[i + t]);
                assert(suf.take(n as int)[t as int] != lit.spec_bytes()[t as int]);
            }
            return None;
        }
        proof {
            assert(suf[t as int] == s@[i + t]);
        }
        t = t + 1;
    }
    proof {
        assert(suf.take(n as int) =~= lit.spec_bytes());
        assert(s@.skip((i + n) as int) =~= suf.skip(n as int));
    }
    Some(i + n)
}

} // verus!
