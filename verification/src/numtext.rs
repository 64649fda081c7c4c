//! Decimal numerals as character sequences: recognition and evaluation of
//! integer texts, used by both decoding paths.
use core::cmp::Ordering;
use vstd::prelude::*;
use vstd::string::*;

verus! {

/// True for the ten ASCII digit characters.
pub open spec fn is_dec_digit(c: char) -> bool {
    48 <= c as u32 <= 57
}

/// Numeric value of one ASCII digit character.
pub open spec fn digit_val(c: char) -> int {
    c as u32 - 48
}

/// True when every character of `s` is an ASCII digit.
pub open spec fn all_digits(s: Seq<char>) -> bool {
    forall|i: int| 0 <= i < s.len() ==> is_dec_digit(#[trigger] s[i])
}

/// Value of a digit sequence read as a base-ten numeral.
pub open spec fn digits_val(s: Seq<char>) -> int
    decreases s.len(),
{
    if s.len() == 0 {
        0
    } else {
        digits_val(s.drop_last()) * 10 + digit_val(s.last())
    }
}

pub proof fn lemma_digits_val_nonneg(s: Seq<char>)
    requires
        all_digits(s),
    ensures
        digits_val(s) >= 0,
    decreases s.len(),
{
    if s.len() > 0 {
        assert(all_digits(s.drop_last()));
        lemma_digits_val_nonneg(s.drop_last());
    }
}

/// A digit sequence is worth at least any of its prefixes.
pub proof fn lemma_digits_val_prefix(s: Seq<char>, i: int)
    requires
        all_digits(s),
        0 <= i <= s.len(),
    ensures
        digits_val(s.subrange(0, i)) <= digits_val(s),
    decreases s.len() - i,
{
    if i == s.len() {
        assert(s.subrange(0, i) =~= s);
    } else {
        let t = s.subrange(0, i + 1);
        assert(t.drop_last() =~= s.subrange(0, i));
        assert(all_digits(t));
        lemma_digits_val_nonneg(s.subrange(0, i));
        assert(digits_val(s.subrange(0, i)) <= digits_val(t));
        lemma_digits_val_prefix(s, i + 1);
    }
}

/// Reads a run of digits as an unsigned value, refusing empty text, any
/// non-digit, and values above `u64::MAX`.
pub fn parse_dec_mag(s: &str) -> (r: Option<u64>)
    ensures
        r is Some <==> s@.len() > 0 && all_digits(s@) && digits_val(s@) <= u64::MAX,
        r matches Some(v) ==> v == digits_val(s@),
{
    let n = s.unicode_len();
    if n == 0 {
        return None;
    }
    let mut acc: u128 = 0;
    let mut i: usize = 0;
    while i < n
        invariant
            0 <= i <= n,
            n == s@.len(),
            all_digits(s@.subrange(0, i as int)),
            acc == digits_val(s@.subrange(0, i as int)),
            acc <= u64::MAX,
        decreases n - i,
    {
        let c = s.get_char(i);
        let cu = c as u32;
        if cu < 48 || cu > 57 {
            assert(!is_dec_digit(s@[i as int]));
            return None;
        }
        let d = (cu - 48) as u128;
        let acc2 = acc * 10 + d;
        proof {
            let t = s@.subrange(0, i + 1);
            assert(t.drop_last() =~= s@.subrange(0, i as int));
            assert(t.last() == s@[i as int]);
            assert(acc2 == digits_val(t));
        }
        if acc2 > u64::MAX as u128 {
            proof {
                if all_digits(s@) {
                    lemma_digits_val_prefix(s@, i + 1);
                }
            }
            return None;
        }
        acc = acc2;
        i += 1;
    }
    assert(s@.subrange(0, n as int) =~= s@);
    Some(acc as u64)
}

/// The numeral with any leading sign removed.
pub open spec fn int_body(s: Seq<char>) -> Seq<char> {
    if s.len() > 0 && (s[0] == '+' || s[0] == '-') {
        s.subrange(1, s.len() as int)
    } else {
        s
    }
}

/// True when the numeral carries a leading minus sign.
pub open spec fn int_neg(s: Seq<char>) -> bool {
    s.len() > 0 && s[0] == '-'
}

/// An optional sign followed by at least one digit.
pub open spec fn int_text_valid(s: Seq<char>) -> bool {
    int_body(s).len() > 0 && all_digits(int_body(s))
}

/// Signed value of an integer numeral.
pub open spec fn int_text_val(s: Seq<char>) -> int {
    if int_neg(s) {
        -digits_val(int_body(s))
    } else {
        digits_val(int_body(s))
    }
}

/// True when `s` is an integer numeral whose value fits in an `i64`,
/// the texts accepted by a signed 64-bit read.
pub open spec fn i64_text_valid(s: Seq<char>) -> bool {
    int_text_valid(s) && i64::MIN <= int_text_val(s) <= i64::MAX
}

/// True when `s` is an unsigned numeral (no minus sign) whose value fits in
/// a `usize`.
pub open spec fn usize_text_valid(s: Seq<char>) -> bool {
    int_text_valid(s) && !int_neg(s) && int_text_val(s) <= usize::MAX
}

/// Reads a signed 64-bit integer numeral: an optional sign, then digits,
/// refused when the value leaves the `i64` range.
pub fn parse_i64(s: &str) -> (r: Option<i64>)
    ensures
        r is Some <==> i64_text_valid(s@),
        r matches Some(v) ==> v == int_text_val(s@),
{
    let n = s.unicode_len();
    let mut neg = false;
    let mut start: usize = 0;
    if n > 0 {
        let c0 = s.get_char(0);
        if c0 == '-' {
            neg = true;
            start = 1;
        } else if c0 == '+' {
            start = 1;
        }
    }
    let body = s.substring_char(start, n);
    assert(body@ =~= int_body(s@));
    let mag = parse_dec_mag(body);
    proof {
        if int_text_valid(s@) {
            lemma_digits_val_nonneg(int_body(s@));
        }
    }
    match mag {
        None => None,
        Some(m) => {
            if neg {
                if m <= 9223372036854775807u64 {
                    Some(-(m as i64))
                } else if m == 9223372036854775808u64 {
                    Some(i64::MIN)
                } else {
                    None
                }
            } else {
                if m <= 9223372036854775807u64 {
                    Some(m as i64)
                } else {
                    None
                }
            }
        },
    }
}

/// Reads an unsigned size numeral: an optional plus sign, then digits,
/// refused when the value leaves the `usize` range.
pub fn parse_usize(s: &str) -> (r: Option<usize>)
    ensures
        r is Some <==> usize_text_valid(s@),
        r matches Some(v) ==> v == int_text_val(s@),
{
    let n = s.unicode_len();
    let mut start: usize = 0;
    if n > 0 {
        let c0 = s.get_char(0);
        if c0 == '+' {
            start = 1;
        } else if c0 == '-' {
            proof {
                if int_text_valid(s@) {
                    lemma_digits_val_nonneg(int_body(s@));
                }
            }
            return None;
        }
    }
    let body = s.substring_char(start, n);
    assert(body@ =~= int_body(s@));
    let mag = parse_dec_mag(body);
    proof {
        if int_text_valid(s@) {
            lemma_digits_val_nonneg(int_body(s@));
        }
    }
    match mag {
        None => None,
        Some(m) => {
            if m <= usize::MAX as u64 {
                Some(m as usize)
            } else {
                None
            }
        },
    }
}

/// The digit character for a value below ten.
pub open spec fn digit_char(d: int) -> char {
    seq!['0', '1', '2', '3', '4', '5', '6', '7', '8', '9'][d]
}

/// The base-ten text of an unsigned value, most significant digit first.
pub open spec fn dec_text(n: nat) -> Seq<char>
    decreases n,
{
    if n < 10 {
        seq![digit_char(n as int)]
    } else {
        dec_text(n / 10).push(digit_char((n % 10) as int))
    }
}

/// The base-ten text of a signed value: a minus sign for negatives, then
/// the magnitude's digits.
pub open spec fn int_to_text(v: int) -> Seq<char> {
    if v < 0 {
        seq!['-'] + dec_text((-v) as nat)
    } else {
        dec_text(v as nat)
    }
}

/// Adds one digit character at the end of the text.
fn append_digit(out: &mut String, d: u8)
    requires
        d < 10,
    ensures
        final(out)@ == old(out)@.push(digit_char(d as int)),
{
    proof {
        reveal_strlit("0");
        reveal_strlit("1");
        reveal_strlit("2");
        reveal_strlit("3");
        reveal_strlit("4");
        reveal_strlit("5");
        reveal_strlit("6");
        reveal_strlit("7");
        reveal_strlit("8");
        reveal_strlit("9");
    }
    match d {
        0 => out.append("0"),
        1 => out.append("1"),
        2 => out.append("2"),
        3 => out.append("3"),
        4 => out.append("4"),
        5 => out.append("5"),
        6 => out.append("6"),
        7 => out.append("7"),
        8 => out.append("8"),
        _ => out.append("9"),
    }
    proof {
        assert(out@ =~= old(out)@.push(digit_char(d as int)));
    }
}

/// The digit characters of a least-significant-first digit list, read in
/// display order.
pub open spec fn rev_digit_text(d: Seq<u8>) -> Seq<char> {
    Seq::new(d.len(), |i: int| digit_char(d[d.len() - 1 - i] as int))
}

/// Renders an unsigned value in base ten.
pub fn u128_to_text(n: u128) -> (r: String)
    ensures
        r@ == dec_text(n as nat),
{
    let mut digs: Vec<u8> = Vec::new();
    let mut m: u128 = n;
    digs.push((m % 10) as u8);
    m = m / 10;
    proof {
        assert(rev_digit_text(digs@) =~= seq![digit_char((n % 10) as int)]);
        if n < 10 {
            assert(dec_text(n as nat) == rev_digit_text(digs@));
        }
    }
    while m > 0
        invariant
            m > 0 ==> dec_text(n as nat) == dec_text(m as nat) + rev_digit_text(digs@),
            m == 0 ==> dec_text(n as nat) == rev_digit_text(digs@),
            forall|i: int| 0 <= i < digs@.len() ==> #[trigger] digs@[i] < 10,
            digs@.len() >= 1,
        decreases m,
    {
        let ghost oldd = digs@;
        let ghost oldm = m as nat;
        digs.push((m % 10) as u8);
        m = m / 10;
        proof {
            assert(rev_digit_text(digs@) =~= seq![digit_char((oldm % 10) as int)]
                + rev_digit_text(oldd));
            if oldm >= 10 {
                assert(dec_text(oldm) == dec_text(oldm / 10).push(
                    digit_char((oldm % 10) as int),
                ));
                assert(dec_text(oldm / 10) + rev_digit_text(digs@) =~= dec_text(oldm)
                    + rev_digit_text(oldd));
            } else {
                assert(dec_text(oldm) =~= seq![digit_char(oldm as int)]);
                assert(rev_digit_text(digs@) =~= dec_text(oldm) + rev_digit_text(oldd));
            }
        }
    }
    let mut out = String::new();
    let k = digs.len();
    let mut i: usize = k;
    while i > 0
        invariant
            0 <= i <= k,
            k == digs@.len(),
            forall|j: int| 0 <= j < digs@.len() ==> #[trigger] digs@[j] < 10,
            dec_text(n as nat) == rev_digit_text(digs@),
            out@ =~= rev_digit_text(digs@).subrange(0, k - i),
        decreases i,
    {
        i = i - 1;
        append_digit(&mut out, digs[i]);
        proof {
            assert(rev_digit_text(digs@)[k - i - 1] == digit_char(digs@[i as int] as int));
            assert(out@ =~= rev_digit_text(digs@).subrange(0, k - i));
        }
    }
    proof {
        assert(out@ =~= rev_digit_text(digs@));
    }
    out
}

/// Renders a signed value in base ten.
pub fn i128_to_text(v: i128) -> (r: String)
    ensures
        r@ == int_to_text(v as int),
{
    if v < 0 {
        let mag: u128 = (-(v + 1)) as u128 + 1;
        let mut out = String::new();
        proof {
            reveal_strlit("-");
        }
        out.append("-");
        let digits = u128_to_text(mag);
        out.append(digits.as_str());
        proof {
            assert(out@ =~= seq!['-'] + dec_text(mag as nat));
        }
        out
    } else {
        u128_to_text(v as u128)
    }
}

/// Lexicographic order of two character sequences, by scalar value.
pub open spec fn lex_cmp(a: Seq<char>, b: Seq<char>) -> Ordering
    decreases a.len(),
{
    if a.len() == 0 && b.len() == 0 {
        Ordering::Equal
    } else if a.len() == 0 {
        Ordering::Less
    } else if b.len() == 0 {
        Ordering::Greater
    } else if (a[0] as u32) < (b[0] as u32) {
        Ordering::Less
    } else if (a[0] as u32) > (b[0] as u32) {
        Ordering::Greater
    } else {
        lex_cmp(a.subrange(1, a.len() as int), b.subrange(1, b.len() as int))
    }
}

/// After equal prefixes, lexicographic order is decided by the rest.
proof fn lemma_lex_cmp_skip(a: Seq<char>, b: Seq<char>, i: int)
    requires
        0 <= i <= a.len(),
        i <= b.len(),
        forall|k: int| 0 <= k < i ==> a[k] == b[k],
    ensures
        lex_cmp(a, b) == lex_cmp(a.subrange(i, a.len() as int), b.subrange(i, b.len() as int)),
    decreases i,
{
    if i == 0 {
        assert(a.subrange(0, a.len() as int) =~= a);
        assert(b.subrange(0, b.len() as int) =~= b);
    } else {
        lemma_lex_cmp_skip(a, b, i - 1);
        let ar = a.subrange(i - 1, a.len() as int);
        let br = b.subrange(i - 1, b.len() as int);
        assert(ar[0] == b[i - 1] && br[0] == b[i - 1]);
        assert(ar.subrange(1, ar.len() as int) =~= a.subrange(i, a.len() as int));
        assert(br.subrange(1, br.len() as int) =~= b.subrange(i, b.len() as int));
    }
}

/// Compares two texts lexicographically by character scalar value, the
/// order strings sort in.
pub fn str_lex_cmp(a: &str, b: &str) -> (r: Ordering)
    ensures
        r == lex_cmp(a@, b@),
{
    let an = a.unicode_len();
    let bn = b.unicode_len();
    let mut i: usize = 0;
    while i < an && i < bn
        invariant
            0 <= i <= an,
            i <= bn,
            an == a@.len(),
            bn == b@.len(),
            forall|k: int| 0 <= k < i ==> a@[k] == b@[k],
        decreases an - i,
    {
        let ca = a.get_char(i) as u32;
        let cb = b.get_char(i) as u32;
        if ca < cb {
            proof {
                lemma_lex_cmp_skip(a@, b@, i as int);
            }
            return Ordering::Less;
        } else if ca > cb {
            proof {
                lemma_lex_cmp_skip(a@, b@, i as int);
            }
            return Ordering::Greater;
        }
        i += 1;
    }
    proof {
        lemma_lex_cmp_skip(a@, b@, i as int);
    }
    if an == bn {
        Ordering::Equal
    } else if an < bn {
        Ordering::Less
    } else {
        Ordering::Greater
    }
}

/// Appends one character at the end of the text.
///
/// Relies on String::push: it appends exactly the given character.
#[verifier::external_body]
pub fn push_char(s: &mut String, c: char)
    ensures
        final(s)@ == old(s)@.push(c),
{
    s.push(c);
}

/// Decides whether two texts hold the same characters.
pub fn str_eq(a: &str, b: &str) -> (r: bool)
    ensures
        r == (a@ == b@),
{
    let an = a.unicode_len();
    let bn = b.unicode_len();
    if an != bn {
        proof {
            assert(a@ != b@);
        }
        return false;
    }
    let mut i: usize = 0;
    while i < an
        invariant
            0 <= i <= an,
            an == a@.len(),
            an == b@.len(),
            forall|k: int| 0 <= k < i ==> a@[k] == b@[k],
        decreases an - i,
    {
        let ca = a.get_char(i);
        let cb = b.get_char(i);
        if ca != cb {
            proof {
                assert(a@[i as int] != b@[i as int]);
            }
            return false;
        }
        i += 1;
    }
    proof {
        assert(a@ =~= b@);
    }
    true
}

/// Case-insensitive match of one character against a lowercase letter.
pub open spec fn is_ci(c: char, l: char) -> bool {
    c as u32 == l as u32 || c as u32 + 32 == l as u32
}

/// True when `b` reads `inf` in any letter case.
pub open spec fn reads_inf(b: Seq<char>) -> bool {
    b.len() == 3 && is_ci(b[0], 'i') && is_ci(b[1], 'n') && is_ci(b[2], 'f')
}

/// True when `b` reads `infinity` in any letter case.
pub open spec fn reads_infinity(b: Seq<char>) -> bool {
    b.len() == 8 && is_ci(b[0], 'i') && is_ci(b[1], 'n') && is_ci(b[2], 'f') && is_ci(b[3], 'i')
        && is_ci(b[4], 'n') && is_ci(b[5], 'i') && is_ci(b[6], 't') && is_ci(b[7], 'y')
}

/// True when `b` reads `nan` in any letter case.
pub open spec fn reads_nan(b: Seq<char>) -> bool {
    b.len() == 3 && is_ci(b[0], 'n') && is_ci(b[1], 'a') && is_ci(b[2], 'n')
}

/// The named non-finite float texts, sign already removed.
pub open spec fn special_float_body(b: Seq<char>) -> bool {
    reads_inf(b) || reads_infinity(b) || reads_nan(b)
}

/// A mantissa: digits with at most one decimal point and at least one digit.
pub open spec fn mantissa_valid(m: Seq<char>) -> bool {
    &&& forall|k: int| 0 <= k < m.len() ==> is_dec_digit(#[trigger] m[k]) || m[k] == '.'
    &&& exists|k: int| 0 <= k < m.len() && is_dec_digit(#[trigger] m[k])
    &&& forall|k: int, l: int| 0 <= k < l < m.len() ==> !(#[trigger] m[k] == '.' && #[trigger] m[l] == '.')
}

/// True for the two exponent markers.
pub open spec fn is_exp_marker(c: char) -> bool {
    c == 'e' || c == 'E'
}

/// A float numeral body: a mantissa, optionally followed by an exponent
/// marker and an integer exponent.
pub open spec fn float_body_valid(b: Seq<char>) -> bool {
    mantissa_valid(b) || (exists|i: int|
        0 <= i < b.len() && is_exp_marker(#[trigger] b[i]) && mantissa_valid(b.subrange(0, i))
            && int_text_valid(b.subrange(i + 1, b.len() as int)))
}

/// The texts accepted by a 64-bit float read: an optional sign, then either
/// a named non-finite value or a mantissa with an optional exponent.
pub open spec fn float_text_valid(s: Seq<char>) -> bool {
    special_float_body(int_body(s)) || float_body_valid(int_body(s))
}

/// Case-insensitive comparison against a lowercase letter.
fn ci(c: char, l: char) -> (r: bool)
    requires
        97 <= l as u32 <= 122,
    ensures
        r == is_ci(c, l),
{
    let cu = c as u32;
    let lu = l as u32;
    cu == lu || (cu <= lu && cu + 32 == lu)
}

/// Decides whether the text from `from` on reads as a named non-finite
/// float value.
fn special_from(s: &str, from: usize) -> (r: bool)
    requires
        from <= s@.len(),
    ensures
        r == special_float_body(s@.subrange(from as int, s@.len() as int)),
{
    let ghost b = s@.subrange(from as int, s@.len() as int);
    let n = s.unicode_len();
    let m = n - from;
    if m == 3 {
        let inf = ci(s.get_char(from), 'i') && ci(s.get_char(from + 1), 'n') && ci(
            s.get_char(from + 2),
            'f',
        );
        let nan = ci(s.get_char(from), 'n') && ci(s.get_char(from + 1), 'a') && ci(
            s.get_char(from + 2),
            'n',
        );
        assert(b[0] == s@[from as int] && b[1] == s@[from + 1] && b[2] == s@[from + 2]);
        inf || nan
    } else if m == 8 {
        assert(b[0] == s@[from as int] && b[1] == s@[from + 1] && b[2] == s@[from + 2] && b[3]
            == s@[from + 3] && b[4] == s@[from + 4] && b[5] == s@[from + 5] && b[6] == s@[from + 6]
            && b[7] == s@[from + 7]);
        ci(s.get_char(from), 'i') && ci(s.get_char(from + 1), 'n') && ci(s.get_char(from + 2), 'f')
            && ci(s.get_char(from + 3), 'i') && ci(s.get_char(from + 4), 'n') && ci(
            s.get_char(from + 5),
            'i',
        ) && ci(s.get_char(from + 6), 't') && ci(s.get_char(from + 7), 'y')
    } else {
        false
    }
}

/// Decides whether `s` is an integer numeral: an optional sign, then at
/// least one digit.
pub fn is_int_text(s: &str) -> (r: bool)
    ensures
        r == int_text_valid(s@),
{
    let n = s.unicode_len();
    let mut start: usize = 0;
    if n > 0 {
        let c0 = s.get_char(0);
        if c0 == '+' || c0 == '-' {
            start = 1;
        }
    }
    if start >= n {
        return false;
    }
    let mut i: usize = start;
    while i < n
        invariant
            start <= i <= n,
            n == s@.len(),
            start <= 1,
            start == 1 ==> n > 0 && (s@[0] == '+' || s@[0] == '-'),
            start == 0 ==> n == 0 || !(s@[0] == '+' || s@[0] == '-'),
            forall|k: int| start <= k < i ==> is_dec_digit(#[trigger] s@[k]),
        decreases n - i,
    {
        let c = s.get_char(i);
        let cu = c as u32;
        if cu < 48 || cu > 57 {
            assert(!is_dec_digit(int_body(s@)[i - start]));
            return false;
        }
        i += 1;
    }
    assert(forall|k: int| 0 <= k < int_body(s@).len() ==> is_dec_digit(#[trigger] int_body(s@)[k]));
    true
}

/// Decides whether `s` is a float numeral: the texts a 64-bit float read
/// accepts, including the named non-finite values.
pub fn is_float_text(s: &str) -> (r: bool)
    ensures
        r == float_text_valid(s@),
{
    let n = s.unicode_len();
    let mut start: usize = 0;
    if n > 0 {
        let c0 = s.get_char(0);
        if c0 == '+' || c0 == '-' {
            start = 1;
        }
    }
    let ghost b = int_body(s@);
    proof {
        assert(b =~= s@.subrange(start as int, n as int));
    }
    if special_from(s, start) {
        return true;
    }
    let mut i: usize = start;
    let mut seen_digit = false;
    let mut seen_dot = false;
    let ghost mut dot_at: int = 0;
    while i < n
        invariant
            start <= i <= n,
            n == s@.len(),
            b == int_body(s@),
            b == s@.subrange(start as int, n as int),
            forall|k: int| start <= k < i ==> is_dec_digit(#[trigger] s@[k]) || s@[k] == '.',
            seen_digit <==> exists|k: int| start <= k < i && is_dec_digit(#[trigger] s@[k]),
            seen_dot <==> exists|k: int| start <= k < i && #[trigger] s@[k] == '.',
            seen_dot ==> start <= dot_at < i && s@[dot_at] == '.' && forall|k: int|
                start <= k < i && k != dot_at ==> #[trigger] s@[k] != '.',
            !special_float_body(b),
        decreases n - i,
    {
        let c = s.get_char(i);
        let cu = c as u32;
        if 48 <= cu && cu <= 57 {
            seen_digit = true;
            i += 1;
        } else if c == '.' {
            if seen_dot {
                proof {
                    lemma_not_float_two_dots(s@, start as int, dot_at, i as int);
                }
                return false;
            }
            seen_dot = true;
            proof {
                dot_at = i as int;
            }
            i += 1;
        } else if c == 'e' || c == 'E' {
            if !seen_digit {
                proof {
                    lemma_not_float_no_digit_before_exp(s@, start as int, i as int);
                }
                return false;
            }
            let ex = s.substring_char(i + 1, n);
            let r = is_int_text(ex);
            proof {
                lemma_float_split_at_exp(s@, start as int, i as int, seen_digit, dot_at, seen_dot);
                assert(ex@ =~= b.subrange(i - start + 1, b.len() as int));
            }
            return r;
        } else {
            proof {
                lemma_not_float_bad_char(s@, start as int, i as int);
            }
            return false;
        }
    }
    proof {
        assert forall|j: int| 0 <= j < b.len() implies !is_exp_marker(#[trigger] b[j]) by {
            assert(b[j] == s@[start + j]);
        }
        if seen_digit {
            let kd = choose|k: int| start <= k < n && is_dec_digit(s@[k]);
            assert(b[kd - start] == s@[kd]);
            assert forall|k: int| 0 <= k < b.len() implies is_dec_digit(#[trigger] b[k]) || b[k]
                == '.' by {
                assert(b[k] == s@[start + k]);
            }
            assert forall|k: int, l: int| 0 <= k < l < b.len() implies !(#[trigger] b[k] == '.'
                && #[trigger] b[l] == '.') by {
                assert(b[k] == s@[start + k] && b[l] == s@[start + l]);
            }
            assert(mantissa_valid(b));
        } else {
            if mantissa_valid(b) {
                let k = choose|k: int| 0 <= k < b.len() && is_dec_digit(b[k]);
                assert(is_dec_digit(s@[start + k]));
            }
            assert(!float_body_valid(b));
        }
    }
    seen_digit
}

/// No float numeral holds two decimal points before any exponent marker.
proof fn lemma_not_float_two_dots(s: Seq<char>, start: int, d1: int, d2: int)
    requires
        0 <= start <= d1 < d2 < s.len(),
        int_body(s) =~= s.subrange(start, s.len() as int),
        s[d1] == '.',
        s[d2] == '.',
        forall|k: int| start <= k < d2 ==> is_dec_digit(#[trigger] s[k]) || s[k] == '.',
    ensures
        !float_body_valid(int_body(s)),
{
    let b = int_body(s);
    assert(b[d1 - start] == '.' && b[d2 - start] == '.');
    assert(!mantissa_valid(b));
    assert forall|j: int| 0 <= j < b.len() && is_exp_marker(#[trigger] b[j]) implies !(
    mantissa_valid(b.subrange(0, j)) && int_text_valid(
        b.subrange(j + 1, b.len() as int),
    )) by {
        assert(b[j] == s[start + j]);
        if j + start <= d2 {
            // the marker would sit among the scanned digits and dots
            assert(!is_exp_marker(s[start + j]));
        } else {
            let m = b.subrange(0, j);
            assert(m[d1 - start] == '.' && m[d2 - start] == '.');
            assert(!mantissa_valid(m));
        }
    }
}

/// No float numeral puts an exponent marker before its first digit.
proof fn lemma_not_float_no_digit_before_exp(s: Seq<char>, start: int, e: int)
    requires
        0 <= start <= e < s.len(),
        int_body(s) =~= s.subrange(start, s.len() as int),
        is_exp_marker(s[e]),
        forall|k: int| start <= k < e ==> is_dec_digit(#[trigger] s[k]) || s[k] == '.',
        !(exists|k: int| start <= k < e && is_dec_digit(#[trigger] s[k])),
    ensures
        !float_body_valid(int_body(s)),
{
    let b = int_body(s);
    assert(b[e - start] == s[e]);
    assert(!mantissa_valid(b));
    assert forall|j: int| 0 <= j < b.len() && is_exp_marker(#[trigger] b[j]) implies !(
    mantissa_valid(b.subrange(0, j)) && int_text_valid(
        b.subrange(j + 1, b.len() as int),
    )) by {
        assert(b[j] == s[start + j]);
        let m = b.subrange(0, j);
        if start + j < e {
            assert(!is_exp_marker(s[start + j]));
        } else if start + j == e {
            if mantissa_valid(m) {
                let k = choose|k: int| 0 <= k < m.len() && is_dec_digit(m[k]);
                assert(is_dec_digit(s[start + k]));
            }
        } else {
            assert(m[e - start] == s[e]);
            assert(!(is_dec_digit(m[e - start]) || m[e - start] == '.'));
            assert(!mantissa_valid(m));
        }
    }
}

/// A character that is no digit, point, or exponent marker refutes the
/// numeral.
proof fn lemma_not_float_bad_char(s: Seq<char>, start: int, p: int)
    requires
        0 <= start <= p < s.len(),
        int_body(s) =~= s.subrange(start, s.len() as int),
        !is_dec_digit(s[p]),
        s[p] != '.',
        !is_exp_marker(s[p]),
        forall|k: int| start <= k < p ==> is_dec_digit(#[trigger] s[k]) || s[k] == '.',
    ensures
        !float_body_valid(int_body(s)),
{
    let b = int_body(s);
    assert(b[p - start] == s[p]);
    assert(!mantissa_valid(b));
    assert forall|j: int| 0 <= j < b.len() && is_exp_marker(#[trigger] b[j]) implies !(
    mantissa_valid(b.subrange(0, j)) && int_text_valid(
        b.subrange(j + 1, b.len() as int),
    )) by {
        assert(b[j] == s[start + j]);
        if start + j < p {
            assert(!is_exp_marker(s[start + j]));
        } else {
            let m = b.subrange(0, j);
            assert(m[p - start] == s[p]);
            assert(!mantissa_valid(m));
        }
    }
}

/// At the first exponent marker, the numeral is valid exactly when the
/// exponent text after it is a signed integer numeral.
proof fn lemma_float_split_at_exp(
    s: Seq<char>,
    start: int,
    e: int,
    seen_digit: bool,
    dot_at: int,
    seen_dot: bool,
)
    requires
        0 <= start <= e < s.len(),
        int_body(s) =~= s.subrange(start, s.len() as int),
        is_exp_marker(s[e]),
        forall|k: int| start <= k < e ==> is_dec_digit(#[trigger] s[k]) || s[k] == '.',
        seen_digit,
        seen_digit <==> exists|k: int| start <= k < e && is_dec_digit(#[trigger] s[k]),
        seen_dot ==> start <= dot_at < e && s[dot_at] == '.' && forall|k: int|
            start <= k < e && k != dot_at ==> #[trigger] s[k] != '.',
        !seen_dot ==> forall|k: int| start <= k < e ==> #[trigger] s[k] != '.',
        !special_float_body(int_body(s)),
    ensures
        float_body_valid(int_body(s)) <==> int_text_valid(
            int_body(s).subrange(e - start + 1, int_body(s).len() as int),
        ),
        float_text_valid(s) <==> int_text_valid(
            int_body(s).subrange(e - start + 1, int_body(s).len() as int),
        ),
{
    let b = int_body(s);
    let j0 = e - start;
    assert(b[j0] == s[e]);
    assert(!mantissa_valid(b));
    let m0 = b.subrange(0, j0);
    assert forall|k: int| 0 <= k < m0.len() implies is_dec_digit(#[trigger] m0[k]) || m0[k]
        == '.' by {
        assert(m0[k] == s[start + k]);
    }
    let kd = choose|k: int| start <= k < e && is_dec_digit(s[k]);
    assert(is_dec_digit(m0[kd - start]));
    assert forall|k: int, l: int| 0 <= k < l < m0.len() implies !(#[trigger] m0[k] == '.'
        && #[trigger] m0[l] == '.') by {
        assert(m0[k] == s[start + k] && m0[l] == s[start + l]);
    }
    assert(mantissa_valid(m0));
    if int_text_valid(b.subrange(j0 + 1, b.len() as int)) {
        assert(float_body_valid(b));
    } else {
        assert forall|j: int| 0 <= j < b.len() && is_exp_marker(#[trigger] b[j]) implies !(
        mantissa_valid(b.subrange(0, j)) && int_text_valid(
            b.subrange(j + 1, b.len() as int),
        )) by {
            assert(b[j] == s[start + j]);
            if j < j0 {
                assert(!is_exp_marker(s[start + j]));
            } else if j > j0 {
                let m = b.subrange(0, j);
                assert(m[j0] == s[e]);
                assert(!mantissa_valid(m));
            }
        }
    }
}

} // verus!
