//! Money codec: user-entered decimal strings to integer minor units
//! (cents) and back to display strings.
//!
//! All monetary values are integers in minor units; the codec never
//! goes through floating point.

use vstd::prelude::*;

use crate::text::{is_space, lemma_char_inj, lemma_trim_no_space, spec_trim, trim};

verus! {

// ---------------------------------------------------------------------------
// Digits and decimal numerals
// ---------------------------------------------------------------------------

/// Is `c` an ASCII decimal digit?
pub open spec fn is_digit(c: char) -> bool {
    48 <= c as u32 && c as u32 <= 57
}

/// Numeric value of a digit character.
pub open spec fn digit_val(c: char) -> int {
    c as u32 - 48
}

/// The digit character for a value in `0..=9`.
pub open spec fn digit_char(d: int) -> char {
    if d == 0 {
        '0'
    } else if d == 1 {
        '1'
    } else if d == 2 {
        '2'
    } else if d == 3 {
        '3'
    } else if d == 4 {
        '4'
    } else if d == 5 {
        '5'
    } else if d == 6 {
        '6'
    } else if d == 7 {
        '7'
    } else if d == 8 {
        '8'
    } else {
        '9'
    }
}

/// Every character of `s` is an ASCII decimal digit.
pub open spec fn all_digits(s: Seq<char>) -> bool {
    forall|i: int| 0 <= i < s.len() ==> is_digit(#[trigger] s[i])
}

/// The decimal numeral of a non-negative integer, most significant
/// digit first.
pub open spec fn dec_str(n: int) -> Seq<char>
    decreases n,
{
    if n <= 9 {
        seq![digit_char(n)]
    } else {
        dec_str(n / 10).push(digit_char(n % 10))
    }
}

/// The value of a digit string, read as a decimal numeral.
pub open spec fn dec_val(s: Seq<char>) -> int
    decreases s.len(),
{
    if s.len() == 0 {
        0
    } else {
        dec_val(s.drop_last()) * 10 + digit_val(s.last())
    }
}

proof fn lemma_digit_char_val(d: int)
    requires
        0 <= d <= 9,
    ensures
        is_digit(digit_char(d)),
        digit_val(digit_char(d)) == d,
        d >= 1 ==> digit_char(d) != '0',
{
}

proof fn lemma_digit_roundtrip(c: char)
    requires
        is_digit(c),
    ensures
        digit_char(digit_val(c)) == c,
{
    lemma_digit_char_val(digit_val(c));
    lemma_char_inj(digit_char(digit_val(c)), c);
}

proof fn lemma_dec_val_empty()
    ensures
        dec_val(Seq::<char>::empty()) == 0,
{
    assert(dec_val(Seq::<char>::empty()) == 0);
}

proof fn lemma_dec_val1(a: char)
    ensures
        dec_val(seq![a]) == digit_val(a),
{
    lemma_dec_val_empty();
    assert(seq![a].drop_last() =~= Seq::<char>::empty());
}

proof fn lemma_dec_val2(a: char, b: char)
    ensures
        dec_val(seq![a, b]) == digit_val(a) * 10 + digit_val(b),
{
    lemma_dec_val1(a);
    assert(seq![a, b].drop_last() =~= seq![a]);
}

proof fn lemma_pad2_digits(f: Seq<char>)
    requires
        all_digits(f),
        f.len() <= 2,
    ensures
        all_digits(pad2(f)),
        pad2(f).len() == 2,
        0 <= dec_val(pad2(f)) <= 99,
        f.len() == 0 ==> dec_val(pad2(f)) == 0,
{
    lemma_digit_char_val(0);
    let p = pad2(f);
    if f.len() == 0 {
        assert(p =~= seq!['0', '0']);
        lemma_dec_val2('0', '0');
    } else if f.len() == 1 {
        assert(p =~= seq![f[0], '0']);
        lemma_dec_val2(f[0], '0');
    } else {
        assert(p =~= seq![f[0], f[1]]);
        lemma_dec_val2(f[0], f[1]);
    }
}

/// Decimal numerals consist of digits, are non-empty, read back to
/// the number they were made from, and carry no leading zero.
pub proof fn lemma_dec_str(n: int)
    requires
        0 <= n,
    ensures
        all_digits(dec_str(n)),
        dec_str(n).len() >= 1,
        dec_val(dec_str(n)) == n,
        n >= 1 ==> dec_str(n)[0] != '0',
    decreases n,
{
    if n <= 9 {
        lemma_digit_char_val(n);
        lemma_dec_val1(digit_char(n));
    } else {
        lemma_dec_str(n / 10);
        lemma_digit_char_val(n % 10);
        let s = dec_str(n);
        assert(s.drop_last() =~= dec_str(n / 10));
        assert(s[0] == dec_str(n / 10)[0]);
    }
}

proof fn lemma_dec_val_nonneg(s: Seq<char>)
    requires
        all_digits(s),
    ensures
        0 <= dec_val(s),
    decreases s.len(),
{
    if s.len() > 0 {
        assert(all_digits(s.drop_last()));
        lemma_dec_val_nonneg(s.drop_last());
    }
}

/// Reading one more digit multiplies the prefix value by ten and adds
/// the digit.
pub proof fn lemma_dec_val_take_step(s: Seq<char>, i: int)
    requires
        0 <= i < s.len(),
    ensures
        dec_val(s.take(i + 1)) == dec_val(s.take(i)) * 10 + digit_val(s[i]),
{
    assert(s.take(i + 1).drop_last() =~= s.take(i));
}

/// For a digit string, every prefix reads to at most the whole.
pub proof fn lemma_dec_val_prefix_le(s: Seq<char>, i: int)
    requires
        all_digits(s),
        0 <= i <= s.len(),
    ensures
        dec_val(s.take(i)) <= dec_val(s),
    decreases s.len() - i,
{
    if i == s.len() {
        assert(s.take(i) =~= s);
    } else {
        lemma_dec_val_take_step(s, i);
        assert(all_digits(s.take(i))) by {
            assert(forall|j: int| 0 <= j < i ==> s.take(i)[j] == s[j]);
        }
        lemma_dec_val_nonneg(s.take(i));
        lemma_dec_val_prefix_le(s, i + 1);
    }
}

proof fn lemma_dec_val_pos(s: Seq<char>)
    requires
        all_digits(s),
        s.len() >= 1,
        s[0] != '0',
    ensures
        dec_val(s) >= 1,
    decreases s.len(),
{
    if s.len() == 1 {
        assert(s =~= seq![s[0]]);
        lemma_dec_val1(s[0]);
        if digit_val(s[0]) == 0 {
            lemma_char_inj(s[0], '0');
        }
    } else {
        assert(all_digits(s.drop_last()));
        assert(s.drop_last()[0] == s[0]);
        lemma_dec_val_pos(s.drop_last());
        lemma_dec_val_nonneg(s);
    }
}

/// A digit string with no leading zero is the numeral of its value.
pub proof fn lemma_dec_str_canon(s: Seq<char>)
    requires
        all_digits(s),
        s.len() >= 1,
        s.len() == 1 || s[0] != '0',
    ensures
        dec_str(dec_val(s)) == s,
    decreases s.len(),
{
    if s.len() == 1 {
        assert(s =~= seq![s[0]]);
        lemma_dec_val1(s[0]);
        lemma_digit_roundtrip(s[0]);
        assert(dec_str(dec_val(s)) =~= s);
    } else {
        let bl = s.drop_last();
        let d = digit_val(s.last());
        assert(all_digits(bl));
        assert(bl[0] == s[0]);
        lemma_dec_str_canon(bl);
        lemma_dec_val_pos(bl);
        let v = dec_val(s);
        vstd::arithmetic::div_mod::lemma_fundamental_div_mod_converse(v, 10, dec_val(bl), d);
        lemma_digit_roundtrip(s.last());
        assert(dec_str(v) =~= s);
    }
}

// ---------------------------------------------------------------------------
// Formatting
// ---------------------------------------------------------------------------

/// The display form of an amount of minor units: a sign for negative
/// values, the whole part, and exactly two fractional digits.
pub open spec fn spec_format_money(c: int) -> Seq<char> {
    let m = if c < 0 {
        -c
    } else {
        c
    };
    let sign: Seq<char> = if c < 0 {
        seq!['-']
    } else {
        Seq::<char>::empty()
    };
    sign + dec_str(m / 100) + seq!['.'] + seq![
        digit_char((m % 100) / 10),
        digit_char((m % 100) % 10),
    ]
}

fn digit_literal(d: u64) -> (r: &'static str)
    requires
        d <= 9,
    ensures
        r@ == seq![digit_char(d as int)],
{
    proof {
        reveal_strlit("0");
        reveal_strlit("1");
        reveal_strlit("2");
        reveal_strlit("3");
        reveal_strlit("4");
        reveal_strlit("5");
        reveal_strlit("6");
        reveal_strlit("7");
        reveal_strlit("8");
        reveal_strlit("9");
    }
    let r = match d {
        0 => "0",
        1 => "1",
        2 => "2",
        3 => "3",
        4 => "4",
        5 => "5",
        6 => "6",
        7 => "7",
        8 => "8",
        _ => "9",
    };
    proof {
        assert(r@ =~= seq![digit_char(d as int)]);
    }
    r
}

pub(crate) fn push_dec(out: &mut String, n: u64)
    ensures
        final (out)@ == old(out)@ + dec_str(n as int),
    decreases n,
{
    if n <= 9 {
        out.append(digit_literal(n));
    } else {
        push_dec(out, n / 10);
        out.append(digit_literal(n % 10));
        proof {
            assert(old(out)@ + dec_str((n / 10) as int) + seq![digit_char((n % 10) as int)]
                =~= old(out)@ + dec_str(n as int));
        }
    }
}

/// Renders an amount of minor units for display: sign prefix only for
/// negative values, then the whole part, a dot, and two zero-padded
/// fractional digits.
pub fn format_money(cents: i64) -> (r: String)
    ensures
        r@ == spec_format_money(cents as int),
{
    let mag: u64 = if cents >= 0 {
        cents as u64
    } else {
        (-(cents as i128)) as u64
    };
    let mut out = String::new();
    if cents < 0 {
        proof {
            reveal_strlit("-");
        }
        out.append("-");
    }
    push_dec(&mut out, mag / 100);
    proof {
        reveal_strlit(".");
    }
    out.append(".");
    let fr = mag % 100;
    out.append(digit_literal(fr / 10));
    out.append(digit_literal(fr % 10));
    proof {
        assert(out@ =~= spec_format_money(cents as int));
    }
    out
}

// ---------------------------------------------------------------------------
// Parsing
// ---------------------------------------------------------------------------

/// The decimal separator: a comma counts as a dot.
pub open spec fn norm_sep(c: char) -> char {
    if c == ',' {
        '.'
    } else {
        c
    }
}

/// `s` with commas replaced by dots.
pub open spec fn normalize_seps(s: Seq<char>) -> Seq<char> {
    s.map_values(|c: char| norm_sep(c))
}

/// Index of the first dot in `s`, or `s.len()` if there is none.
pub open spec fn first_dot(s: Seq<char>) -> int
    decreases s.len(),
{
    if s.len() == 0 {
        0
    } else if s[0] == '.' {
        0
    } else {
        1 + first_dot(s.drop_first())
    }
}

proof fn lemma_first_dot_at(s: Seq<char>, k: int)
    requires
        0 <= k <= s.len(),
        forall|i: int| 0 <= i < k ==> s[i] != '.',
        k == s.len() || s[k] == '.',
    ensures
        first_dot(s) == k,
    decreases k,
{
    if k == 0 {
    } else {
        lemma_first_dot_at(s.drop_first(), k - 1);
    }
}

/// A fractional part padded with trailing zeros to two digits.
pub open spec fn pad2(f: Seq<char>) -> Seq<char> {
    if f.len() == 0 {
        seq!['0', '0']
    } else if f.len() == 1 {
        f.push('0')
    } else {
        f
    }
}

/// The amount read from a whole part and a fractional part, if both
/// are well-formed and the value fits the machine range.
pub open spec fn amount_from_parts(w: Seq<char>, f: Seq<char>) -> Option<i64> {
    if w.len() >= 1 && all_digits(w) && f.len() <= 2 && all_digits(f) {
        let v = dec_val(w) * 100 + dec_val(pad2(f));
        if v <= i64::MAX {
            Some(v as i64)
        } else {
            None
        }
    } else {
        None
    }
}

/// What `parse_amount_to_cents` accepts and returns: the input is
/// trimmed; an empty or negatively signed string is rejected; comma
/// and dot serve interchangeably as the decimal separator; at most
/// one separator and at most two fractional digits are allowed; a
/// missing or short fractional part counts as zero-padded.
pub open spec fn spec_parse_amount(s: Seq<char>) -> Option<i64> {
    let t = spec_trim(s);
    if t.len() == 0 {
        None
    } else if t[0] == '-' {
        None
    } else {
        let u = normalize_seps(t);
        let fd = first_dot(u);
        if fd == u.len() {
            amount_from_parts(u, Seq::<char>::empty())
        } else {
            amount_from_parts(u.take(fd), u.skip(fd + 1))
        }
    }
}

fn find_sep(t: &str) -> (r: usize)
    ensures
        0 <= r <= t@.len(),
        forall|j: int| 0 <= j < r ==> (t@[j] != '.' && t@[j] != ','),
        r < t@.len() ==> (t@[r as int] == '.' || t@[r as int] == ','),
{
    let n = t.unicode_len();
    let mut i: usize = 0;
    while i < n
        invariant
            n == t@.len(),
            0 <= i <= n,
            forall|j: int| 0 <= j < i ==> (t@[j] != '.' && t@[j] != ','),
        decreases n - i,
    {
        let c = t.get_char(i);
        if c == '.' || c == ',' {
            return i;
        }
        i = i + 1;
    }
    n
}

fn parse_digits(t: &str, from: usize, to: usize) -> (r: Option<u64>)
    requires
        from <= to <= t@.len(),
    ensures
        ({
            let seg = t@.subrange(from as int, to as int);
            match r {
                Some(v) => all_digits(seg) && v as int == dec_val(seg) && dec_val(seg)
                    <= i64::MAX,
                None => !(all_digits(seg) && dec_val(seg) <= i64::MAX),
            }
        }),
{
    let ghost seg = t@.subrange(from as int, to as int);
    let mut acc: u64 = 0;
    let mut i: usize = from;
    while i < to
        invariant
            from <= i <= to <= t@.len(),
            seg == t@.subrange(from as int, to as int),
            all_digits(seg.take(i - from)),
            acc as int == dec_val(seg.take(i - from)),
            acc <= i64::MAX as u64,
        decreases to - i,
    {
        let c = t.get_char(i);
        let u = c as u32;
        if u < 48 || u > 57 {
            proof {
                assert(seg[i - from] == t@[i as int]);
                assert(!is_digit(seg[i - from]));
            }
            return None;
        }
        let d = (u - 48) as u64;
        proof {
            assert(seg[i - from] == t@[i as int]);
            assert(d as int == digit_val(seg[i - from]));
            lemma_dec_val_take_step(seg, i - from);
        }
        if acc > (i64::MAX as u64 - d) / 10 {
            proof {
                let k = i - from + 1;
                assert(dec_val(seg.take(k)) > i64::MAX);
                if all_digits(seg) {
                    lemma_dec_val_prefix_le(seg, k);
                }
            }
            return None;
        }
        acc = acc * 10 + d;
        proof {
            assert(all_digits(seg.take(i - from + 1))) by {
                assert(forall|j: int|
                    0 <= j < i - from ==> #[trigger] seg.take(i - from + 1)[j] == seg.take(
                        i - from,
                    )[j]);
                assert(seg.take(i - from + 1)[i - from] == seg[i - from]);
            }
        }
        i = i + 1;
    }
    proof {
        assert(seg.take(to - from) =~= seg);
    }
    Some(acc)
}

/// Parses a user-entered amount into minor units.  Returns `None` for
/// empty input, a leading minus sign, a second separator, more than
/// two fractional digits, any non-digit in the whole or fractional
/// part, or a value beyond the machine range.
pub fn parse_amount_to_cents(input: &str) -> (r: Option<i64>)
    ensures
        r == spec_parse_amount(input@),
{
    let t = trim(input);
    let n = t.unicode_len();
    if n == 0 {
        return None;
    }
    if t.get_char(0) == '-' {
        return None;
    }
    let ghost u = normalize_seps(t@);
    let sep = find_sep(t);
    proof {
        assert(u.len() == n);
        assert(forall|j: int| 0 <= j < n ==> u[j] == norm_sep(t@[j]));
        assert(forall|j: int| 0 <= j < sep ==> u[j] != '.');
        lemma_first_dot_at(u, sep as int);
    }
    if sep == 0 {
        return None;
    }
    let whole = parse_digits(t, 0, sep);
    let ghost wseg = t@.subrange(0, sep as int);
    let ghost wspec = if sep == n {
        u
    } else {
        u.take(sep as int)
    };
    proof {
        assert(forall|j: int| 0 <= j < sep ==> wseg[j] == t@[j] && wspec[j] == u[j]);
        assert(wspec =~= wseg);
    }
    let w = match whole {
        Some(v) => v,
        None => {
            proof {
                if sep == n {
                    lemma_pad2_digits(Seq::<char>::empty());
                } else {
                    let f = u.skip(sep + 1);
                    if all_digits(f) && f.len() <= 2 {
                        lemma_pad2_digits(f);
                    }
                }
            }
            return None;
        },
    };
    let fval: u64;
    if sep == n {
        proof {
            lemma_pad2_digits(Seq::<char>::empty());
        }
        fval = 0;
    } else {
        let flen = n - sep - 1;
        if flen > 2 {
            return None;
        }
        let ghost fseg = t@.subrange(sep + 1, n as int);
        let ghost fspec = u.skip(sep + 1);
        proof {
            assert(fspec.len() == fseg.len());
            assert(forall|j: int|
                0 <= j < fseg.len() ==> #[trigger] fspec[j] == norm_sep(fseg[j]));
            assert(forall|j: int|
                0 <= j < fseg.len() ==> is_digit(fspec[j]) == is_digit(#[trigger] fseg[j]));
            assert(all_digits(fspec) == all_digits(fseg));
            if all_digits(fseg) {
                assert(forall|j: int| 0 <= j < fseg.len() ==> fspec[j] == fseg[j]);
                assert(fspec =~= fseg);
            }
        }
        let frac = parse_digits(t, sep + 1, n);
        let fv = match frac {
            Some(v) => v,
            None => {
                proof {
                    if all_digits(fseg) {
                        if fseg.len() == 0 {
                            lemma_dec_val_empty();
                        } else if fseg.len() == 1 {
                            assert(fseg =~= seq![fseg[0]]);
                            lemma_dec_val1(fseg[0]);
                        } else {
                            assert(fseg =~= seq![fseg[0], fseg[1]]);
                            lemma_dec_val2(fseg[0], fseg[1]);
                        }
                    }
                }
                return None;
            },
        };
        proof {
            assert(all_digits(fspec));
            assert(fspec =~= fseg);
        }
        proof {
            lemma_pad2_digits(fspec);
        }
        if flen == 0 {
            proof {
                assert(fspec =~= Seq::<char>::empty());
            }
            fval = 0;
        } else if flen == 1 {
            proof {
                assert(fspec =~= seq![fspec[0]]);
                lemma_dec_val1(fspec[0]);
                assert(pad2(fspec) =~= seq![fspec[0], '0']);
                lemma_dec_val2(fspec[0], '0');
                lemma_digit_char_val(0);
            }
            fval = fv * 10;
        } else {
            proof {
                assert(fspec =~= seq![fspec[0], fspec[1]]);
                lemma_dec_val2(fspec[0], fspec[1]);
            }
            fval = fv;
        }
    }
    let total: u128 = (w as u128) * 100 + (fval as u128);
    if total > i64::MAX as u128 {
        return None;
    }
    Some(total as i64)
}

// ---------------------------------------------------------------------------
// The round-trip law
// ---------------------------------------------------------------------------

proof fn lemma_format_pieces_clean(s: Seq<char>)
    requires
        forall|i: int| 0 <= i < s.len() ==> (is_digit(#[trigger] s[i]) || s[i] == '.'),
    ensures
        spec_trim(s) == s,
        forall|i: int| 0 <= i < s.len() ==> #[trigger] norm_sep(s[i]) == s[i],
{
    assert(forall|i: int| 0 <= i < s.len() ==> !is_space(#[trigger] s[i]));
    lemma_trim_no_space(s);
    assert(forall|i: int| 0 <= i < s.len() ==> s[i] != ',');
}

/// Formatting an amount and parsing the result gives back the same
/// number of minor units.
pub proof fn lemma_format_parse_round_trip(v: i64)
    requires
        0 <= v,
    ensures
        spec_parse_amount(spec_format_money(v as int)) == Some(v),
{
    let m = v as int;
    let wpart = dec_str(m / 100);
    let d1 = digit_char((m % 100) / 10);
    let d2 = digit_char((m % 100) % 10);
    let s = spec_format_money(m);
    lemma_dec_str(m / 100);
    lemma_digit_char_val((m % 100) / 10);
    lemma_digit_char_val((m % 100) % 10);
    assert(s =~= wpart + seq!['.'] + seq![d1, d2]);
    let ln = wpart.len() as int;
    assert(forall|i: int| 0 <= i < ln ==> s[i] == wpart[i]);
    assert(s[ln] == '.');
    assert(s[ln + 1] == d1 && s[ln + 2] == d2);
    assert(forall|i: int| 0 <= i < s.len() ==> (is_digit(#[trigger] s[i]) || s[i] == '.'));
    lemma_format_pieces_clean(s);
    let t = spec_trim(s);
    assert(t == s);
    assert(is_digit(t[0]));
    assert(t[0] != '-') by {
        if t[0] == '-' {
            assert(t[0] as u32 == 45);
        }
    }
    let u = normalize_seps(t);
    assert(u =~= s);
    lemma_first_dot_at(u, ln);
    let w = u.take(ln);
    let f = u.skip(ln + 1);
    assert(w =~= wpart);
    assert(f =~= seq![d1, d2]);
    assert(pad2(f) == f);
    lemma_dec_val2(d1, d2);
    assert(dec_val(f) == m % 100);
    assert(dec_val(w) * 100 + dec_val(pad2(f)) == (m / 100) * 100 + m % 100);
    assert((m / 100) * 100 + m % 100 == m);
    assert(amount_from_parts(w, f) == Some(v));
}

/// Parsing a well-formed decimal string and formatting the result
/// reproduces the string up to fractional zero-padding: the whole
/// part is kept as written and the fractional part is padded to two
/// digits.
pub proof fn lemma_parse_format_round_trip(w: Seq<char>, f: Seq<char>)
    requires
        all_digits(w),
        w.len() >= 1,
        w.len() == 1 || w[0] != '0',
        all_digits(f),
        f.len() <= 2,
        dec_val(w) * 100 + dec_val(pad2(f)) <= i64::MAX,
    ensures
        spec_parse_amount(w + seq!['.'] + f) == Some((dec_val(w) * 100 + dec_val(pad2(f))) as i64),
        spec_format_money(dec_val(w) * 100 + dec_val(pad2(f))) == w + seq!['.'] + pad2(f),
{
    let s = w + seq!['.'] + f;
    let ln = w.len() as int;
    assert(forall|i: int| 0 <= i < ln ==> s[i] == w[i]);
    assert(s[ln] == '.');
    assert(forall|i: int| ln + 1 <= i < s.len() ==> s[i] == f[i - ln - 1]);
    assert(forall|i: int| 0 <= i < s.len() ==> (is_digit(#[trigger] s[i]) || s[i] == '.'));
    lemma_format_pieces_clean(s);
    let t = spec_trim(s);
    assert(t == s);
    assert(is_digit(t[0]));
    assert(t[0] != '-') by {
        if t[0] == '-' {
            assert(t[0] as u32 == 45);
        }
    }
    let u = normalize_seps(t);
    assert(u =~= s);
    lemma_first_dot_at(u, ln);
    assert(u.take(ln) =~= w);
    assert(u.skip(ln + 1) =~= f);
    let pf = pad2(f);
    lemma_digit_char_val(0);
    assert(all_digits(pf) && pf.len() == 2) by {
        if f.len() == 1 {
            assert(pf[0] == f[0] && pf[1] == '0');
        }
    }
    let a = pf[0];
    let b = pf[1];
    assert(pf =~= seq![a, b]);
    lemma_dec_val2(a, b);
    let fv = dec_val(pf);
    assert(fv == digit_val(a) * 10 + digit_val(b));
    let v = dec_val(w) * 100 + fv;
    lemma_dec_val_nonneg(w);
    assert(0 <= fv <= 99);
    assert(0 <= v);
    assert(amount_from_parts(w, f) == Some(v as i64));
    // The formatting direction.
    vstd::arithmetic::div_mod::lemma_fundamental_div_mod_converse(v, 100, dec_val(w), fv);
    lemma_dec_str_canon(w);
    vstd::arithmetic::div_mod::lemma_fundamental_div_mod_converse(
        fv,
        10,
        digit_val(a),
        digit_val(b),
    );
    lemma_digit_roundtrip(a);
    lemma_digit_roundtrip(b);
    assert(spec_format_money(v) =~= w + seq!['.'] + pf);
}

/// The same law for input with no decimal separator: the value is a
/// whole number of currency units and formats with a `.00` tail.
pub proof fn lemma_parse_format_round_trip_whole(w: Seq<char>)
    requires
        all_digits(w),
        w.len() >= 1,
        w.len() == 1 || w[0] != '0',
        dec_val(w) * 100 <= i64::MAX,
    ensures
        spec_parse_amount(w) == Some((dec_val(w) * 100) as i64),
        spec_format_money(dec_val(w) * 100) == w + seq!['.'] + seq!['0', '0'],
{
    assert(forall|i: int| 0 <= i < w.len() ==> (is_digit(#[trigger] w[i]) || w[i] == '.'));
    lemma_format_pieces_clean(w);
    let t = spec_trim(w);
    assert(t == w);
    assert(is_digit(t[0]));
    assert(t[0] != '-') by {
        if t[0] == '-' {
            assert(t[0] as u32 == 45);
        }
    }
    let u = normalize_seps(t);
    assert(u =~= w);
    lemma_first_dot_at(u, w.len() as int);
    let pf = pad2(Seq::<char>::empty());
    lemma_digit_char_val(0);
    assert(pf =~= seq!['0', '0']);
    lemma_dec_val2('0', '0');
    assert(dec_val(pf) == 0);
    let v = dec_val(w) * 100;
    lemma_dec_val_nonneg(w);
    assert(amount_from_parts(u, Seq::<char>::empty()) == Some(v as i64));
    vstd::arithmetic::div_mod::lemma_fundamental_div_mod_converse(v, 100, dec_val(w), 0);
    lemma_dec_str_canon(w);
    assert(spec_format_money(v) =~= w + seq!['.'] + pf);
}

} // verus!
