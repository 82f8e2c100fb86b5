use vstd::prelude::*;
use vstd::utf8::{decode_utf8, valid_utf8};

verus! {

// ---------------------------------------------------------------------------
// Runs of bytes
//
// The wire protocol and the log format are both scanned byte by byte; the
// length of the longest run of bytes satisfying a predicate is the one
// notion every scanner needs.
// ---------------------------------------------------------------------------

/// Length of the longest run of bytes satisfying `p` that starts at `i`.
pub open spec fn run_len(s: Seq<u8>, i: int, p: spec_fn(u8) -> bool) -> int
    decreases s.len() - i when i >= 0
{
    if i < 0 || i >= s.len() {
        0
    } else if p(s[i]) {
        1 + run_len(s, i + 1, p)
    } else {
        0
    }
}

/// Every byte inside the run satisfies `p`; the byte just past it (if any)
/// does not.
pub proof fn lemma_run_len_bounds(s: Seq<u8>, i: int, p: spec_fn(u8) -> bool)
    requires
        0 <= i <= s.len(),
    ensures
        0 <= run_len(s, i, p),
        i + run_len(s, i, p) <= s.len(),
        forall|k: int| i <= k < i + run_len(s, i, p) ==> p(s[k]),
        i + run_len(s, i, p) == s.len() || !p(s[i + run_len(s, i, p)]),
    decreases s.len() - i,
{
    if i < s.len() && p(s[i]) {
        lemma_run_len_bounds(s, i + 1, p);
    }
}

/// The run length is pinned by its characterization: if `p` holds on `[i, j)`
/// and fails at `j` (or `j` is the end of the sequence), the run starting at
/// `i` is exactly `j - i` long.
pub proof fn lemma_run_len_exact(s: Seq<u8>, i: int, j: int, p: spec_fn(u8) -> bool)
    requires
        0 <= i <= j <= s.len(),
        forall|k: int| i <= k < j ==> p(s[k]),
        j == s.len() || !p(s[j]),
    ensures
        run_len(s, i, p) == j - i,
    decreases j - i,
{
    if i < j {
        lemma_run_len_exact(s, i + 1, j, p);
    }
}

// ---------------------------------------------------------------------------
// Byte-slice equality
// ---------------------------------------------------------------------------

/// Compares two byte slices by contents.
pub fn bytes_eq(a: &[u8], b: &[u8]) -> (r: bool)
    ensures
        r == (a@ == b@),
{
    if a.len() != b.len() {
        return false;
    }
    let mut i: usize = 0;
    while i < a.len()
        invariant
            0 <= i <= a@.len(),
            a@.len() == b@.len(),
            forall|k: int| 0 <= k < i ==> a@[k] == b@[k],
        decreases a@.len() - i,
    {
        if a[i] != b[i] {
            return false;
        }
        i = i + 1;
    }
    proof {
        assert(a@ =~= b@);
    }
    true
}

/// Compares two strings by contents.
pub fn str_eq(a: &str, b: &str) -> (r: bool)
    ensures
        r == (a@ == b@),
{
    let r = bytes_eq(a.as_bytes(), b.as_bytes());
    proof {
        if vstd::utf8::encode_utf8(a@) == vstd::utf8::encode_utf8(b@) {
            vstd::utf8::encode_utf8_decode_utf8(a@);
            vstd::utf8::encode_utf8_decode_utf8(b@);
        }
    }
    r
}

// ---------------------------------------------------------------------------
// Decimal numerals
//
// The log format stores the timestamp of an entry as a decimal numeral.
// ---------------------------------------------------------------------------

/// True of the bytes `'0'` through `'9'`.
pub open spec fn is_digit(b: u8) -> bool {
    0x30 <= b <= 0x39
}

pub open spec fn digit_pred() -> spec_fn(u8) -> bool {
    |b: u8| is_digit(b)
}

/// The decimal numeral of `n`, most significant digit first, without
/// leading zeros.
pub open spec fn dec_digits(n: nat) -> Seq<u8>
    decreases n
{
    if n < 10 {
        seq![(0x30 + n) as u8]
    } else {
        dec_digits(n / 10).push((0x30 + n % 10) as u8)
    }
}

/// The value of a sequence of digit bytes, read in base ten.
pub open spec fn dec_val(s: Seq<u8>) -> int
    decreases s.len()
{
    if s.len() == 0 {
        0
    } else {
        dec_val(s.drop_last()) * 10 + (s.last() - 0x30)
    }
}

/// A numeral consists of digits and is never empty.
pub proof fn lemma_dec_digits_wf(n: nat)
    ensures
        dec_digits(n).len() >= 1,
        forall|k: int| 0 <= k < dec_digits(n).len() ==> is_digit(#[trigger] dec_digits(n)[k]),
    decreases n,
{
    if n >= 10 {
        lemma_dec_digits_wf(n / 10);
    }
}

/// Reading back the numeral of `n` yields `n`.
pub proof fn lemma_dec_val_of_digits(n: nat)
    ensures
        dec_val(dec_digits(n)) == n,
    decreases n,
{
    if n < 10 {
        assert(dec_digits(n) == seq![(0x30 + n) as u8]);
        assert(dec_digits(n).drop_last() =~= Seq::<u8>::empty());
        assert(dec_val(Seq::<u8>::empty()) == 0);
        assert(dec_digits(n).last() == (0x30 + n) as u8);
        assert(dec_val(dec_digits(n)) == dec_val(dec_digits(n).drop_last()) * 10 + (
        dec_digits(n).last() - 0x30));
    } else {
        lemma_dec_val_of_digits(n / 10);
        assert(dec_digits(n).drop_last() =~= dec_digits(n / 10));
        assert(dec_digits(n).last() == (0x30 + n % 10) as u8);
        assert(n == (n / 10) * 10 + n % 10) by {
            vstd::arithmetic::div_mod::lemma_fundamental_div_mod(n as int, 10);
        }
    }
}

/// The value of a digit sequence is never negative.
pub proof fn lemma_dec_val_nonneg(s: Seq<u8>)
    requires
        forall|k: int| 0 <= k < s.len() ==> is_digit(#[trigger] s[k]),
    ensures
        dec_val(s) >= 0,
    decreases s.len(),
{
    if s.len() > 0 {
        lemma_dec_val_nonneg(s.drop_last());
    }
}

/// Dropping trailing digits never increases the value of a digit sequence.
pub proof fn lemma_dec_val_prefix_le(s: Seq<u8>, j: int)
    requires
        forall|k: int| 0 <= k < s.len() ==> is_digit(#[trigger] s[k]),
        0 <= j <= s.len(),
    ensures
        dec_val(s.take(j)) <= dec_val(s),
    decreases s.len() - j,
{
    if j == s.len() {
        assert(s.take(j) =~= s);
    } else {
        lemma_dec_val_prefix_le(s, j + 1);
        assert(s.take(j + 1).drop_last() =~= s.take(j));
        assert(s.take(j + 1).last() == s[j]);
        lemma_dec_val_nonneg(s.take(j));
    }
}

/// Appends the decimal numeral of `n` to `out`.
pub fn push_decimal(out: &mut Vec<u8>, n: u64)
    ensures
        final(out)@ == old(out)@ + dec_digits(n as nat),
{
    let ghost goal: Seq<u8> = dec_digits(n as nat);
    let mut rev: Vec<u8> = Vec::new();
    let mut m: u64 = n;
    while m >= 10
        invariant
            goal == dec_digits(n as nat),
            goal.len() == dec_digits(m as nat).len() + rev@.len(),
            dec_digits(m as nat) == goal.take(goal.len() - rev@.len()),
            forall|k: int| 0 <= k < rev@.len() ==> rev@[k] == goal[goal.len() - 1 - k],
        decreases m,
    {
        let d: u8 = 0x30 + (m % 10) as u8;
        proof {
            let ghost tail: int = goal.len() - rev@.len();
            assert(dec_digits(m as nat) == dec_digits((m as nat) / 10).push(
                (0x30 + (m as nat) % 10) as u8,
            ));
            assert(dec_digits(m as nat).len() == tail);
            assert(dec_digits(m as nat).last() == d);
            assert(goal.take(tail)[tail - 1] == goal[tail - 1]);
            assert(goal[tail - 1] == d);
            assert(dec_digits((m as nat) / 10) =~= goal.take(tail - 1));
        }
        rev.push(d);
        m = m / 10;
    }
    let d: u8 = 0x30 + (m % 10) as u8;
    proof {
        let ghost tail: int = goal.len() - rev@.len();
        assert(dec_digits(m as nat) =~= seq![d]);
        assert(tail == 1);
        assert(goal.take(tail)[tail - 1] == goal[tail - 1]);
        assert(goal[tail - 1] == d);
    }
    rev.push(d);
    proof {
        assert(rev@.len() == goal.len());
    }
    let mut i: usize = rev.len();
    while i > 0
        invariant
            rev@.len() == goal.len(),
            0 <= i <= rev@.len(),
            forall|k: int| 0 <= k < rev@.len() ==> rev@[k] == goal[goal.len() - 1 - k],
            out@ == old(out)@ + goal.take(goal.len() - i),
        decreases i,
    {
        let b = rev[i - 1];
        out.push(b);
        proof {
            assert(out@ =~= old(out)@ + goal.take(goal.len() - (i - 1)));
        }
        i = i - 1;
    }
    proof {
        assert(goal.take(goal.len() as int) =~= goal);
    }
}

/// Reads the base-ten value of `line[start..end]`, whose bytes must all be
/// digits. Returns `None` exactly when the value does not fit in a `u64`.
pub fn parse_u64(line: &[u8], start: usize, end: usize) -> (r: Option<u64>)
    requires
        start <= end <= line@.len(),
        forall|k: int| start <= k < end ==> is_digit(#[trigger] line@[k]),
    ensures
        match r {
            Some(v) => v as int == dec_val(line@.subrange(start as int, end as int)),
            None => dec_val(line@.subrange(start as int, end as int)) > u64::MAX,
        },
{
    let ghost run: Seq<u8> = line@.subrange(start as int, end as int);
    let mut acc: u64 = 0;
    let mut i: usize = start;
    while i < end
        invariant
            start <= i <= end <= line@.len(),
            run == line@.subrange(start as int, end as int),
            forall|k: int| start <= k < end ==> is_digit(#[trigger] line@[k]),
            acc as int == dec_val(run.take(i - start)),
        decreases end - i,
    {
        let d: u8 = line[i] - 0x30;
        proof {
            assert(run.take(i - start + 1).drop_last() =~= run.take(i - start));
            assert(run.take(i - start + 1).last() == line@[i as int]);
        }
        let next = match acc.checked_mul(10) {
            Some(t) => t.checked_add(d as u64),
            None => None,
        };
        match next {
            Some(v) => {
                acc = v;
            }
            None => {
                proof {
                    assert(forall|k: int|
                        0 <= k < run.len() ==> is_digit(#[trigger] run[k]));
                    assert(dec_val(run.take(i - start + 1)) > u64::MAX);
                    lemma_dec_val_prefix_le(run, i - start + 1);
                }
                return None;
            }
        }
        i = i + 1;
    }
    proof {
        assert(run.take(end - start) =~= run);
    }
    Some(acc)
}

// ---------------------------------------------------------------------------
// Text decoding
// ---------------------------------------------------------------------------

/// Two distinct characters have distinct scalar values.
pub proof fn lemma_char_ne_byte(c: char, d: char, b: u8)
    requires
        d as u32 == b as u32,
        c != d,
    ensures
        c as u32 != b as u32,
{
    if c as u32 == b as u32 {
        vstd::utf8::char_u32_cast(c, b as u32);
        vstd::utf8::char_u32_cast(d, b as u32);
    }
}

/// A character other than ASCII `b` never encodes to the byte `b`: its
/// one-byte encoding is its own value, and the bytes of a longer encoding
/// are all `0x80` or above.
pub proof fn lemma_scalar_byte_avoids(c: char, b: u8)
    requires
        b < 0x80,
        c as u32 != b as u32,
    ensures
        forall|k: int|
            0 <= k < vstd::utf8::encode_scalar(c as u32).len()
                ==> #[trigger] vstd::utf8::encode_scalar(c as u32)[k] != b,
{
    vstd::utf8::char_is_scalar(c);
    let sc = c as u32;
    if vstd::utf8::has_width_1_encoding(sc) {
        assert(((sc & 0x7f) as u8) != b) by (bit_vector)
            requires
                sc <= 0x7f,
                b < 0x80,
                sc != b as u32,
        ;
    } else {
        assert(forall|x: u8| #[trigger] (0x80u8 | x) >= 0x80) by (bit_vector);
        assert(forall|x: u8| #[trigger] (0xC0u8 | x) >= 0x80) by (bit_vector);
        assert(forall|x: u8| #[trigger] (0xE0u8 | x) >= 0x80) by (bit_vector);
        assert(forall|x: u8| #[trigger] (0xF0u8 | x) >= 0x80) by (bit_vector);
    }
}

/// UTF-8 keeps distinct ASCII apart: where no character of `s` is the ASCII
/// character with value `b`, no byte of the encoding is `b`.
pub proof fn lemma_encode_avoids_byte(s: Seq<char>, b: u8)
    requires
        b < 0x80,
        forall|i: int| 0 <= i < s.len() ==> #[trigger] (s[i] as u32) != b as u32,
    ensures
        forall|k: int|
            0 <= k < vstd::utf8::encode_utf8(s).len() ==> #[trigger] vstd::utf8::encode_utf8(
                s,
            )[k] != b,
    decreases s.len(),
{
    if s.len() > 0 {
        lemma_encode_avoids_byte(s.drop_first(), b);
        lemma_scalar_byte_avoids(s[0], b);
        assert forall|k: int|
            0 <= k < vstd::utf8::encode_utf8(s).len() implies #[trigger] vstd::utf8::encode_utf8(
            s,
        )[k] != b by {
            let head = vstd::utf8::encode_scalar(s[0] as u32);
            if k >= head.len() {
                assert(vstd::utf8::encode_utf8(s)[k] == vstd::utf8::encode_utf8(
                    s.drop_first(),
                )[k - head.len()]);
            }
        }
    }
}

/// A position preceded only by ASCII bytes is a character boundary.
pub proof fn lemma_ascii_prefix_boundary(bytes: Seq<u8>, k: int)
    requires
        valid_utf8(bytes),
        0 <= k <= bytes.len(),
        forall|i: int| 0 <= i < k ==> bytes[i] < 0x80,
    ensures
        vstd::utf8::is_char_boundary(bytes, k),
    decreases k,
{
    if k > 0 {
        assert(vstd::utf8::is_leading_byte_width_1(bytes[0]));
        assert(vstd::utf8::length_of_first_scalar(bytes) == 1);
        let rest = vstd::utf8::pop_first_scalar(bytes);
        assert(forall|i: int| 0 <= i < k - 1 ==> rest[i] < 0x80);
        lemma_ascii_prefix_boundary(rest, k - 1);
    }
}

/// Relies on `String::from_utf8`: it returns `Ok` exactly when the bytes are
/// valid UTF-8, and the resulting string holds the characters those bytes
/// encode.
#[verifier::external_body]
pub fn string_from_utf8(v: Vec<u8>) -> (r: Option<String>)
    ensures
        r is Some <==> valid_utf8(v@),
        r matches Some(s) ==> s@ == decode_utf8(v@),
{
    match String::from_utf8(v) {
        Ok(s) => Some(s),
        Err(_) => None,
    }
}

} // verus!
