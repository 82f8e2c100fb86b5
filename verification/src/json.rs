use vstd::prelude::*;

verus! {

// ---------------------------------------------------------------------------
// JSON string escaping
//
// The write-ahead log stores strings JSON-escaped: quote and backslash get a
// backslash, the named control characters get their short escapes, the
// remaining control bytes get `\u00XX`, and every other byte stands as it
// is. Decoding accepts exactly these forms (plus the optional `\/`), so
// that encode followed by decode is the identity on every string.
// ---------------------------------------------------------------------------

/// The value of one hexadecimal digit, written in lower case.
pub open spec fn hex_digit(n: u8) -> u8
    recommends
        n < 16,
{
    if n < 10 {
        (0x30 + n) as u8
    } else {
        (0x57 + n) as u8
    }
}

/// True of the bytes that are hexadecimal digits.
pub open spec fn is_hex(b: u8) -> bool {
    (0x30 <= b <= 0x39) || (0x61 <= b <= 0x66) || (0x41 <= b <= 0x46)
}

/// The value of a hexadecimal digit byte.
pub open spec fn hex_val(b: u8) -> u8 {
    if 0x30 <= b <= 0x39 {
        (b - 0x30) as u8
    } else if 0x61 <= b <= 0x66 {
        (b - 0x57) as u8
    } else if 0x41 <= b <= 0x46 {
        (b - 0x37) as u8
    } else {
        0
    }
}

/// Writing a digit and reading it back is the identity.
pub proof fn lemma_hex_digit(n: u8)
    requires
        n < 16,
    ensures
        is_hex(hex_digit(n)),
        hex_val(hex_digit(n)) == n,
{
}

/// One byte of string content, escaped.
pub open spec fn escape_byte(b: u8) -> Seq<u8> {
    if b == 0x22 {
        seq![0x5cu8, 0x22]
    } else if b == 0x5c {
        seq![0x5cu8, 0x5c]
    } else if b == 0x08 {
        seq![0x5cu8, 0x62]
    } else if b == 0x09 {
        seq![0x5cu8, 0x74]
    } else if b == 0x0a {
        seq![0x5cu8, 0x6e]
    } else if b == 0x0c {
        seq![0x5cu8, 0x66]
    } else if b == 0x0d {
        seq![0x5cu8, 0x72]
    } else if b < 0x20 {
        seq![0x5cu8, 0x75, 0x30, 0x30, hex_digit(b / 16), hex_digit(b % 16)]
    } else {
        seq![b]
    }
}

/// A string's content bytes, escaped one by one.
pub open spec fn escape_bytes(s: Seq<u8>) -> Seq<u8>
    decreases s.len()
{
    if s.len() == 0 {
        Seq::empty()
    } else {
        escape_byte(s[0]) + escape_bytes(s.drop_first())
    }
}

/// Escaping one more byte appends its escape.
pub proof fn lemma_escape_snoc(s: Seq<u8>, b: u8)
    ensures
        escape_bytes(s.push(b)) == escape_bytes(s) + escape_byte(b),
    decreases s.len(),
{
    if s.len() == 0 {
        assert(s.push(b).drop_first() =~= Seq::<u8>::empty());
        assert(s.push(b)[0] == b);
        assert(escape_bytes(s.push(b)) == escape_byte(b) + escape_bytes(Seq::<u8>::empty()));
        assert(escape_bytes(Seq::<u8>::empty()) == Seq::<u8>::empty());
        assert(escape_byte(b) + Seq::<u8>::empty() =~= Seq::<u8>::empty() + escape_byte(b));
        assert(escape_bytes(s) == Seq::<u8>::empty());
    } else {
        assert(s.push(b)[0] == s[0]);
        assert(s.push(b).drop_first() =~= s.drop_first().push(b));
        lemma_escape_snoc(s.drop_first(), b);
        assert(escape_bytes(s.push(b)) =~= escape_bytes(s) + escape_byte(b));
    }
}

/// Escaped content never holds a line feed or carriage return, so an escaped
/// string never breaks the log's line framing.
pub proof fn lemma_escape_no_line_break(s: Seq<u8>)
    ensures
        forall|k: int|
            0 <= k < escape_bytes(s).len() ==> #[trigger] escape_bytes(s)[k] != 0x0a
                && escape_bytes(s)[k] != 0x0d,
    decreases s.len(),
{
    if s.len() > 0 {
        lemma_escape_no_line_break(s.drop_first());
        assert forall|k: int|
            0 <= k < escape_bytes(s).len() implies #[trigger] escape_bytes(s)[k] != 0x0a
            && escape_bytes(s)[k] != 0x0d by {
            let head = escape_byte(s[0]);
            if k >= head.len() {
                assert(escape_bytes(s)[k] == escape_bytes(s.drop_first())[k - head.len()]);
            }
        }
    }
}

fn hex_digit_byte(n: u8) -> (r: u8)
    requires
        n < 16,
    ensures
        r == hex_digit(n),
{
    if n < 10 {
        0x30 + n
    } else {
        0x57 + n
    }
}

/// Appends the escaped UTF-8 of `s` to `out`.
pub fn push_escaped(out: &mut Vec<u8>, s: &str)
    ensures
        final(out)@ == old(out)@ + escape_bytes(vstd::utf8::encode_utf8(s@)),
{
    let b = s.as_bytes();
    let ghost eb = vstd::utf8::encode_utf8(s@);
    let mut i: usize = 0;
    while i < b.len()
        invariant
            0 <= i <= b@.len(),
            b@ == eb,
            out@ == old(out)@ + escape_bytes(eb.take(i as int)),
        decreases b@.len() - i,
    {
        let c = b[i];
        proof {
            assert(eb.take(i + 1).drop_last() =~= eb.take(i as int));
            assert(eb.take(i + 1) =~= eb.take(i as int).push(c));
            lemma_escape_snoc(eb.take(i as int), c);
        }
        if c == 0x22 {
            out.push(0x5c);
            out.push(0x22);
        } else if c == 0x5c {
            out.push(0x5c);
            out.push(0x5c);
        } else if c == 0x08 {
            out.push(0x5c);
            out.push(0x62);
        } else if c == 0x09 {
            out.push(0x5c);
            out.push(0x74);
        } else if c == 0x0a {
            out.push(0x5c);
            out.push(0x6e);
        } else if c == 0x0c {
            out.push(0x5c);
            out.push(0x66);
        } else if c == 0x0d {
            out.push(0x5c);
            out.push(0x72);
        } else if c < 0x20 {
            out.push(0x5c);
            out.push(0x75);
            out.push(0x30);
            out.push(0x30);
            out.push(hex_digit_byte(c / 16));
            out.push(hex_digit_byte(c % 16));
        } else {
            out.push(c);
        }
        proof {
            assert(out@ =~= old(out)@ + escape_bytes(eb.take(i + 1)));
        }
        i = i + 1;
    }
    proof {
        assert(eb.take(b@.len() as int) =~= eb);
    }
}

// ---------------------------------------------------------------------------
// JSON string scanning
// ---------------------------------------------------------------------------

/// True of the bytes that may follow a backslash as a one-letter escape.
pub open spec fn is_simple_escape(b: u8) -> bool {
    b == 0x22 || b == 0x5c || b == 0x2f || b == 0x62 || b == 0x74 || b == 0x6e || b == 0x66
        || b == 0x72
}

/// The byte a one-letter escape stands for.
pub open spec fn unescape_simple(b: u8) -> u8 {
    if b == 0x62 {
        0x08
    } else if b == 0x74 {
        0x09
    } else if b == 0x6e {
        0x0a
    } else if b == 0x66 {
        0x0c
    } else if b == 0x72 {
        0x0d
    } else {
        b
    }
}

/// Reads string content up to and including the closing quote: the decoded
/// bytes, and how many input bytes were consumed. Raw control bytes, bad
/// escapes, and a missing closing quote are rejected; a `\u00XX` escape is
/// accepted for byte values below `0x80`, where it stands for that byte.
pub open spec fn spec_parse_jstr(e: Seq<u8>) -> Option<(Seq<u8>, int)>
    decreases e.len()
{
    if e.len() == 0 {
        None
    } else if e[0] == 0x22 {
        Some((Seq::empty(), 1))
    } else if e[0] == 0x5c {
        if e.len() >= 2 && is_simple_escape(e[1]) {
            match spec_parse_jstr(e.skip(2)) {
                Some(t) => Some((seq![unescape_simple(e[1])] + t.0, t.1 + 2)),
                None => None,
            }
        } else if e.len() >= 6 && e[1] == 0x75 && e[2] == 0x30 && e[3] == 0x30 && is_hex(e[4])
            && is_hex(e[5]) && hex_val(e[4]) < 8 {
            match spec_parse_jstr(e.skip(6)) {
                Some(t) => Some((seq![(hex_val(e[4]) * 16 + hex_val(e[5])) as u8] + t.0, t.1 + 6)),
                None => None,
            }
        } else {
            None
        }
    } else if e[0] < 0x20 {
        None
    } else {
        match spec_parse_jstr(e.skip(1)) {
            Some(t) => Some((seq![e[0]] + t.0, t.1 + 1)),
            None => None,
        }
    }
}

fn is_hex_byte(b: u8) -> (r: bool)
    ensures
        r == is_hex(b),
{
    (0x30 <= b && b <= 0x39) || (0x61 <= b && b <= 0x66) || (0x41 <= b && b <= 0x46)
}

fn hex_val_byte(b: u8) -> (r: u8)
    ensures
        r == hex_val(b),
{
    if 0x30 <= b && b <= 0x39 {
        b - 0x30
    } else if 0x61 <= b && b <= 0x66 {
        b - 0x57
    } else if 0x41 <= b && b <= 0x46 {
        b - 0x37
    } else {
        0
    }
}

/// Scans a JSON string's content starting at `pos` (just past the opening
/// quote): the decoded bytes and the position just past the closing quote.
pub fn parse_jstr(line: &[u8], pos: usize) -> (r: Option<(Vec<u8>, usize)>)
    requires
        pos <= line@.len(),
    ensures
        match spec_parse_jstr(line@.skip(pos as int)) {
            Some(t) => r matches Some(p) && p.0@ == t.0 && p.1 == pos + t.1 && p.1
                <= line@.len(),
            None => r is None,
        },
{
    let ghost orig = line@.skip(pos as int);
    let mut out: Vec<u8> = Vec::new();
    let mut cur: usize = pos;
    loop
        invariant
            pos <= cur <= line@.len(),
            orig == line@.skip(pos as int),
            spec_parse_jstr(orig) == (match spec_parse_jstr(line@.skip(cur as int)) {
                Some(t) => Some::<(Seq<u8>, int)>((out@ + t.0, (cur - pos) + t.1)),
                None => None::<(Seq<u8>, int)>,
            }),
        decreases line@.len() - cur,
    {
        let ghost e = line@.skip(cur as int);
        if cur >= line.len() {
            proof {
                assert(e.len() == 0);
            }
            return None;
        }
        let c = line[cur];
        proof {
            assert(e[0] == c);
        }
        if c == 0x22 {
            proof {
                assert(spec_parse_jstr(e) == Some((Seq::<u8>::empty(), 1int)));
                assert(out@ + Seq::<u8>::empty() =~= out@);
            }
            return Some((out, cur + 1));
        } else if c == 0x5c {
            if cur + 1 >= line.len() {
                proof {
                    assert(e.len() < 2);
                }
                return None;
            }
            let d = line[cur + 1];
            proof {
                assert(e[1] == d);
            }
            if d == 0x22 || d == 0x5c || d == 0x2f || d == 0x62 || d == 0x74 || d == 0x6e
                || d == 0x66 || d == 0x72 {
                let u: u8 = if d == 0x62 {
                    0x08
                } else if d == 0x74 {
                    0x09
                } else if d == 0x6e {
                    0x0a
                } else if d == 0x66 {
                    0x0c
                } else if d == 0x72 {
                    0x0d
                } else {
                    d
                };
                proof {
                    assert(is_simple_escape(d));
                    assert(unescape_simple(d) == u);
                    assert(line@.skip(cur + 2) =~= e.skip(2));
                }
                let ghost out_pre = out@;
                out.push(u);
                proof {
                    assert forall|t0: Seq<u8>| true implies (out_pre + (seq![u] + t0)) =~= (out@
                        + t0) by {}
                }
                cur = cur + 2;
            } else if d == 0x75 {
                if line.len() - cur < 6 {
                    proof {
                        assert(e.len() < 6);
                        assert(!is_simple_escape(d));
                    }
                    return None;
                }
                let z2 = line[cur + 2];
                let z3 = line[cur + 3];
                let h1 = line[cur + 4];
                let h2 = line[cur + 5];
                proof {
                    assert(e[2] == z2 && e[3] == z3 && e[4] == h1 && e[5] == h2);
                    assert(!is_simple_escape(d));
                }
                if z2 == 0x30 && z3 == 0x30 && is_hex_byte(h1) && is_hex_byte(h2) && hex_val_byte(
                    h1,
                ) < 8 {
                    let u: u8 = hex_val_byte(h1) * 16 + hex_val_byte(h2);
                    proof {
                        assert(u == (hex_val(e[4]) * 16 + hex_val(e[5])) as u8);
                        assert(line@.skip(cur + 6) =~= e.skip(6));
                    }
                    let ghost out_pre = out@;
                    out.push(u);
                    proof {
                        assert forall|t0: Seq<u8>| true implies (out_pre + (seq![u] + t0)) =~= (
                        out@ + t0) by {}
                    }
                    cur = cur + 6;
                } else {
                    return None;
                }
            } else {
                proof {
                    assert(!is_simple_escape(d));
                    assert(d != 0x75);
                }
                return None;
            }
        } else if c < 0x20 {
            return None;
        } else {
            proof {
                assert(line@.skip(cur + 1) =~= e.skip(1));
            }
            let ghost out_pre = out@;
            out.push(c);
            proof {
                assert forall|t0: Seq<u8>| true implies (out_pre + (seq![c] + t0)) =~= (out@
                    + t0) by {}
            }
            cur = cur + 1;
        }
    }
}

/// Decoding an escaped string, followed by its closing quote and anything
/// after, yields the string back and stops right after the quote.
pub proof fn lemma_jstr_round_trip(s: Seq<u8>, rest: Seq<u8>)
    ensures
        spec_parse_jstr(escape_bytes(s) + seq![0x22u8] + rest) == Some(
            (s, escape_bytes(s).len() as int + 1),
        ),
    decreases s.len(),
{
    let e = escape_bytes(s) + seq![0x22u8] + rest;
    if s.len() == 0 {
        assert(e[0] == 0x22);
        assert(s =~= Seq::<u8>::empty());
    } else {
        let b = s[0];
        let s1 = s.drop_first();
        let tail_e = escape_bytes(s1) + seq![0x22u8] + rest;
        lemma_jstr_round_trip(s1, rest);
        assert(seq![b] + s1 =~= s);
        if b == 0x22 || b == 0x5c {
            assert(e[0] == 0x5c && e[1] == b);
            assert(is_simple_escape(b));
            assert(unescape_simple(b) == b);
            assert(e.skip(2) =~= tail_e);
        } else if b == 0x08 || b == 0x09 || b == 0x0a || b == 0x0c || b == 0x0d {
            let m: u8 = if b == 0x08 {
                0x62
            } else if b == 0x09 {
                0x74
            } else if b == 0x0a {
                0x6e
            } else if b == 0x0c {
                0x66
            } else {
                0x72
            };
            assert(escape_byte(b) =~= seq![0x5cu8, m]);
            assert(e[0] == 0x5c && e[1] == m);
            assert(is_simple_escape(m));
            assert(unescape_simple(m) == b);
            assert(e.skip(2) =~= tail_e);
        } else if b < 0x20 {
            assert(e[0] == 0x5c && e[1] == 0x75 && e[2] == 0x30 && e[3] == 0x30 && e[4]
                == hex_digit(b / 16) && e[5] == hex_digit(b % 16));
            lemma_hex_digit(b / 16);
            lemma_hex_digit(b % 16);
            assert(!is_simple_escape(0x75));
            assert(hex_val(e[4]) < 8);
            assert((hex_val(e[4]) * 16 + hex_val(e[5])) as u8 == b) by {
                vstd::arithmetic::div_mod::lemma_fundamental_div_mod(b as int, 16);
            }
            assert(e.skip(6) =~= tail_e);
        } else {
            assert(e[0] == b);
            assert(b != 0x22 && b != 0x5c && b >= 0x20);
            assert(e.skip(1) =~= tail_e);
        }
    }
}

} // verus!
