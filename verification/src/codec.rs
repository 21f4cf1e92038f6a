//! The body file format: one body per line, eight numbers separated by
//! single spaces, a trailing newline. Numbers are written in decimal
//! with at most six fractional digits — exactly the fixed-point values
//! the simulation computes with.

use vstd::prelude::*;
use vstd::math::abs;
use vstd::string::StringExecFns;
use crate::entity::Entity;
use crate::SCALE;

verus! {

/// Relies on String::push: appends the given char to the end of this
/// String.
pub assume_specification[ String::push ](s: &mut String, c: char)
    ensures
        final(s)@ == old(s)@.push(c),
;

/// The decimal digit character for `d`.
pub open spec fn digit_char(d: int) -> char
    recommends
        0 <= d <= 9,
{
    ((48 + d) as u8) as char
}

/// The decimal digits of the non-negative `n`, most significant first.
pub open spec fn dec_digits(n: int) -> Seq<char>
    recommends
        n >= 0,
    decreases n,
{
    if n < 10 {
        seq![digit_char(n)]
    } else {
        dec_digits(n / 10) + seq![digit_char(n % 10)]
    }
}

/// Exactly `k` decimal digits of `n`, most significant first, zero
/// padded on the left.
pub open spec fn pad_digits(n: int, k: nat) -> Seq<char>
    recommends
        n >= 0,
    decreases k,
{
    if k == 0 {
        Seq::empty()
    } else {
        pad_digits(n / 10, (k - 1) as nat) + seq![digit_char(n % 10)]
    }
}

/// The sequence with its trailing `'0'` characters removed.
pub open spec fn trim_zeros(s: Seq<char>) -> Seq<char>
    decreases s.len(),
{
    if s.len() > 0 && s.last() == '0' {
        trim_zeros(s.drop_last())
    } else {
        s
    }
}

/// Ten to the `k`.
pub open spec fn pow10(k: nat) -> int
    decreases k,
{
    if k == 0 {
        1
    } else {
        10 * pow10((k - 1) as nat)
    }
}

/// The text of the raw fixed-point value `v`: an optional minus sign,
/// the integer part in decimal, and, when the fractional part is not
/// zero, a point and the fractional digits with trailing zeros
/// trimmed.
pub open spec fn scalar_text(v: int) -> Seq<char> {
    let a = abs(v) as int;
    let ip = a / (SCALE as int);
    let fp = a % (SCALE as int);
    let sign: Seq<char> = if v < 0 {
        seq!['-']
    } else {
        Seq::empty()
    };
    let frac: Seq<char> = if fp == 0 {
        Seq::empty()
    } else {
        seq!['.'] + trim_zeros(pad_digits(fp, 6))
    };
    sign + dec_digits(ip) + frac
}

/// The text of one body: the eight fields in order, separated by
/// single spaces, with no trailing whitespace.
pub open spec fn entity_line(e: Entity) -> Seq<char> {
    scalar_text(e.x as int) + seq![' '] + scalar_text(e.y as int) + seq![' '] + scalar_text(
        e.z as int,
    ) + seq![' '] + scalar_text(e.vx as int) + seq![' '] + scalar_text(e.vy as int) + seq![' ']
        + scalar_text(e.vz as int) + seq![' '] + scalar_text(e.mass as int) + seq![' ']
        + scalar_text(e.radius as int)
}

/// The text of a whole body set: one line per body, last body first,
/// each line terminated by a newline.
pub open spec fn file_text(s: Seq<Entity>) -> Seq<char>
    decreases s.len(),
{
    if s.len() == 0 {
        Seq::empty()
    } else {
        entity_line(s.last()) + seq!['\n'] + file_text(s.drop_last())
    }
}

/// Whether `c` is a decimal digit character.
pub open spec fn is_digit(c: char) -> bool {
    48 <= c as int <= 57
}

/// The value of the decimal digit character `c`.
pub open spec fn digit_val(c: char) -> int {
    c as int - 48
}

/// Every character of the sequence is a decimal digit.
pub open spec fn all_digits(s: Seq<char>) -> bool {
    forall|i: int| 0 <= i < s.len() ==> is_digit(#[trigger] s[i])
}

/// The value of a digit sequence read in decimal.
pub open spec fn digits_val(s: Seq<char>) -> int
    decreases s.len(),
{
    if s.len() == 0 {
        0
    } else {
        digits_val(s.drop_last()) * 10 + digit_val(s.last())
    }
}

/// A digit sequence's value is non-negative and below ten to its
/// length.
pub proof fn lemma_digits_val_bound(s: Seq<char>)
    requires
        all_digits(s),
    ensures
        0 <= digits_val(s) < pow10(s.len()),
    decreases s.len(),
{
    if s.len() > 0 {
        let t = s.drop_last();
        assert(all_digits(t)) by {
            assert(forall|i: int| 0 <= i < t.len() ==> t[i] == #[trigger] s[i]);
        }
        lemma_digits_val_bound(t);
        assert(digits_val(t) * 10 + digit_val(s.last()) < pow10(s.len())) by (nonlinear_arith)
            requires
                0 <= digits_val(t) < pow10(t.len()),
                0 <= digit_val(s.last()) <= 9,
                pow10(s.len()) == 10 * pow10(t.len()),
        ;
    }
}

/// The index of the first occurrence of `c` in `s`, or the length of
/// `s` when `c` does not occur.
pub open spec fn find_char(s: Seq<char>, c: char) -> int
    decreases s.len(),
{
    if s.len() == 0 {
        0
    } else if s[0] == c {
        0
    } else {
        1 + find_char(s.drop_first(), c)
    }
}

/// What `find_char` returns: the first occurrence, or the length.
pub proof fn lemma_find_char(s: Seq<char>, c: char)
    ensures
        0 <= find_char(s, c) <= s.len(),
        find_char(s, c) < s.len() ==> s[find_char(s, c)] == c,
        forall|j: int| 0 <= j < find_char(s, c) ==> s[j] != c,
    decreases s.len(),
{
    if s.len() > 0 && s[0] != c {
        lemma_find_char(s.drop_first(), c);
        assert forall|j: int| 0 <= j < find_char(s, c) implies s[j] != c by {
            if j > 0 {
                assert(s.drop_first()[j - 1] == s[j]);
            }
        }
    }
}

/// `find_char` at a stated first occurrence, or absence.
pub proof fn lemma_find_char_at(s: Seq<char>, c: char, i: int)
    requires
        0 <= i <= s.len(),
        forall|j: int| 0 <= j < i ==> s[j] != c,
        i < s.len() ==> s[i] == c,
    ensures
        find_char(s, c) == i,
    decreases s.len(),
{
    if s.len() > 0 && i > 0 {
        let t = s.drop_first();
        assert(forall|j: int| 0 <= j < s.len() - 1 ==> #[trigger] t[j] == s[j + 1]);
        lemma_find_char_at(t, c, i - 1);
    }
}

/// The pieces of `s` between occurrences of the separator `c`: one
/// more piece than there are separators, in order, each free of the
/// separator.
pub open spec fn split_on(s: Seq<char>, c: char) -> Seq<Seq<char>>
    decreases s.len(),
        via split_on_dec
{
    let i = find_char(s, c);
    if i == s.len() {
        seq![s]
    } else {
        seq![s.take(i)] + split_on(s.skip(i + 1), c)
    }
}

#[via_fn]
proof fn split_on_dec(s: Seq<char>, c: char) {
    lemma_find_char(s, c);
}

/// A sequence free of the separator is one single piece.
pub proof fn lemma_split_single(s: Seq<char>, c: char)
    requires
        forall|j: int| 0 <= j < s.len() ==> s[j] != c,
    ensures
        split_on(s, c) == seq![s],
{
    lemma_find_char_at(s, c, s.len() as int);
}

/// Splitting takes off the first piece at the first separator.
pub proof fn lemma_split_step(pre: Seq<char>, rest: Seq<char>, c: char)
    requires
        forall|j: int| 0 <= j < pre.len() ==> pre[j] != c,
    ensures
        split_on(pre + seq![c] + rest, c) == seq![pre] + split_on(rest, c),
{
    let s = pre + seq![c] + rest;
    assert(forall|j: int| 0 <= j < pre.len() ==> #[trigger] s[j] == pre[j]);
    assert(s[pre.len() as int] == c);
    lemma_find_char_at(s, c, pre.len() as int);
    assert(s.take(pre.len() as int) =~= pre);
    assert(s.skip(pre.len() as int + 1) =~= rest);
}

/// The parse of one numeric field: an optional minus sign, one to
/// twelve integer digits, and optionally a point followed by one to
/// six fractional digits. The value is the raw fixed-point reading.
pub open spec fn parse_scalar(t: Seq<char>) -> Option<i64> {
    let neg = t.len() > 0 && t[0] == '-';
    let body = if neg {
        t.drop_first()
    } else {
        t
    };
    let i = find_char(body, '.');
    if i == body.len() {
        if 1 <= body.len() <= 12 && all_digits(body) {
            let v = digits_val(body) * (SCALE as int);
            Some((if neg {
                -v
            } else {
                v
            }) as i64)
        } else {
            None
        }
    } else {
        let ip = body.take(i);
        let fp = body.skip(i + 1);
        if 1 <= ip.len() <= 12 && all_digits(ip) && 1 <= fp.len() <= 6 && all_digits(fp) {
            let v = digits_val(ip) * (SCALE as int) + digits_val(fp) * pow10(
                (6 - fp.len()) as nat,
            );
            Some((if neg {
                -v
            } else {
                v
            }) as i64)
        } else {
            None
        }
    }
}

/// The parse of one record line: exactly eight numeric fields
/// separated by runs of spaces, read as position, velocity, mass and
/// radius.
pub open spec fn parse_line(l: Seq<char>) -> Option<Entity> {
    let toks = split_on(l, ' ').filter(|t: Seq<char>| t.len() > 0);
    if toks.len() == 8 {
        let fx = parse_scalar(toks[0]);
        let fy = parse_scalar(toks[1]);
        let fz = parse_scalar(toks[2]);
        let fvx = parse_scalar(toks[3]);
        let fvy = parse_scalar(toks[4]);
        let fvz = parse_scalar(toks[5]);
        let fm = parse_scalar(toks[6]);
        let fr = parse_scalar(toks[7]);
        if fx is Some && fy is Some && fz is Some && fvx is Some && fvy is Some && fvz is Some
            && fm is Some && fr is Some {
            Some(
                Entity {
                    x: fx->0,
                    y: fy->0,
                    z: fz->0,
                    vx: fvx->0,
                    vy: fvy->0,
                    vz: fvz->0,
                    mass: fm->0,
                    radius: fr->0,
                },
            )
        } else {
            None
        }
    } else {
        None
    }
}

/// The parse of a sequence of record lines, in order.
pub open spec fn parse_records(ls: Seq<Seq<char>>) -> Option<Seq<Entity>>
    decreases ls.len(),
{
    if ls.len() == 0 {
        Some(Seq::empty())
    } else {
        let e = parse_line(ls[0]);
        let rest = parse_records(ls.drop_first());
        if e is Some && rest is Some {
            Some(seq![e->0] + rest->0)
        } else {
            None
        }
    }
}

/// The parse of a whole body file: every newline-terminated line is a
/// record; whatever follows the last newline is ignored.
pub open spec fn parse_text(text: Seq<char>) -> Option<Seq<Entity>> {
    let pieces = split_on(text, '\n');
    parse_records(pieces.drop_last())
}

/// Digit characters carry their value and are none of the
/// punctuation the format uses.
pub proof fn lemma_digit_char(d: int)
    requires
        0 <= d <= 9,
    ensures
        is_digit(digit_char(d)),
        digit_val(digit_char(d)) == d,
        digit_char(d) != '-',
        digit_char(d) != '.',
        digit_char(d) != ' ',
        digit_char(d) != '\n',
        d != 0 ==> digit_char(d) != '0',
{
    broadcast use vstd::utf8::char_u32_cast;

    assert(digit_char(d) as int == 48 + d);
}

/// The decimal digits of `n`: all digits, at least one of them, the
/// value reading back, and the count growing with the magnitude.
pub proof fn lemma_dec_digits(n: int)
    requires
        0 <= n,
    ensures
        all_digits(dec_digits(n)),
        1 <= dec_digits(n).len(),
        digits_val(dec_digits(n)) == n,
        n < pow10(dec_digits(n).len()),
        n >= 1 ==> pow10((dec_digits(n).len() - 1) as nat) <= n,
        n == 0 ==> dec_digits(n).len() == 1,
    decreases n,
{
    if n < 10 {
        lemma_digit_char(n);
        assert(pow10(0) == 1);
        assert(pow10(1) == 10);
        assert(digits_val(Seq::<char>::empty()) == 0);
        assert(dec_digits(n).drop_last() =~= Seq::<char>::empty());
        assert(digits_val(dec_digits(n)) == n);
    } else {
        lemma_dec_digits(n / 10);
        lemma_digit_char(n % 10);
        let pre = dec_digits(n / 10);
        let s = dec_digits(n);
        assert(s == pre + seq![digit_char(n % 10)]);
        assert(s.drop_last() =~= pre);
        assert(s.last() == digit_char(n % 10));
        assert(all_digits(s)) by {
            assert(forall|i: int|
                0 <= i < pre.len() ==> s[i] == pre[i] && is_digit(#[trigger] pre[i]));
            assert(is_digit(s[s.len() - 1]));
        }
        assert(digits_val(s) == (n / 10) * 10 + (n % 10));
        vstd::arithmetic::div_mod::lemma_fundamental_div_mod(n, 10);
        assert(n < pow10(s.len())) by (nonlinear_arith)
            requires
                n == 10 * (n / 10) + n % 10,
                n % 10 < 10,
                n / 10 < pow10(pre.len()),
                pow10(s.len()) == 10 * pow10(pre.len()),
                s.len() == pre.len() + 1,
        ;
        assert(pow10((s.len() - 1) as nat) <= n) by (nonlinear_arith)
            requires
                n == 10 * (n / 10) + n % 10,
                0 <= n % 10,
                pow10((pre.len() - 1) as nat) <= n / 10,
                pow10((s.len() - 1) as nat) == 10 * pow10((pre.len() - 1) as nat),
                s.len() == pre.len() + 1,
        ;
    }
}

/// The zero-padded digits of `n`: all digits, exactly `k` of them,
/// the value reading back.
pub proof fn lemma_pad_digits(n: int, k: nat)
    requires
        0 <= n < pow10(k),
    ensures
        all_digits(pad_digits(n, k)),
        pad_digits(n, k).len() == k,
        digits_val(pad_digits(n, k)) == n,
    decreases k,
{
    if k == 0 {
    } else {
        vstd::arithmetic::div_mod::lemma_fundamental_div_mod(n, 10);
        assert(n / 10 < pow10((k - 1) as nat)) by (nonlinear_arith)
            requires
                n == 10 * (n / 10) + n % 10,
                0 <= n % 10 < 10,
                n < pow10(k),
                pow10(k) == 10 * pow10((k - 1) as nat),
        ;
        vstd::arithmetic::div_mod::lemma_div_pos_is_pos(n, 10);
        lemma_pad_digits(n / 10, (k - 1) as nat);
        lemma_digit_char(n % 10);
        let pre = pad_digits(n / 10, (k - 1) as nat);
        let s = pad_digits(n, k);
        assert(s.drop_last() =~= pre);
        assert(s.last() == digit_char(n % 10));
        assert(all_digits(s)) by {
            assert(forall|i: int|
                0 <= i < pre.len() ==> s[i] == pre[i] && is_digit(#[trigger] pre[i]));
            assert(is_digit(s[s.len() - 1]));
        }
    }
}

/// Trimming the padded digits of a non-zero fraction keeps at least
/// one digit and keeps the value, up to the dropped power of ten.
pub proof fn lemma_trim_pad(f: int, k: nat)
    requires
        0 < f < pow10(k),
    ensures
        ({
            let t = trim_zeros(pad_digits(f, k));
            &&& 1 <= t.len() <= k
            &&& all_digits(t)
            &&& digits_val(t) * pow10((k - t.len()) as nat) == f
        }),
    decreases k,
{
    lemma_pad_digits(f, k);
    let pd = pad_digits(f, k);
    let t = trim_zeros(pd);
    vstd::arithmetic::div_mod::lemma_fundamental_div_mod(f, 10);
    if k == 0 {
        assert(pow10(0) == 1);
        assert(false);
    }
    if f % 10 == 0 {
        assert(pd.last() == digit_char(0));
        assert(digit_char(0) == '0') by {
            broadcast use vstd::utf8::char_u32_cast;

            assert(digit_char(0) as int == 48);
            assert('0' as int == 48);
        }
        assert(pd.drop_last() =~= pad_digits(f / 10, (k - 1) as nat));
        assert(trim_zeros(pd) == trim_zeros(pad_digits(f / 10, (k - 1) as nat)));
        assert(0 < f / 10) by (nonlinear_arith)
            requires
                f == 10 * (f / 10) + f % 10,
                f % 10 == 0,
                f > 0,
        ;
        assert(f / 10 < pow10((k - 1) as nat)) by (nonlinear_arith)
            requires
                f == 10 * (f / 10) + f % 10,
                0 <= f % 10 < 10,
                f < pow10(k),
                pow10(k) == 10 * pow10((k - 1) as nat),
        ;
        lemma_trim_pad(f / 10, (k - 1) as nat);
        let t2 = trim_zeros(pad_digits(f / 10, (k - 1) as nat));
        assert(t2.len() <= k - 1);
        assert(pow10((k - t2.len()) as nat) == 10 * pow10(((k - 1) - t2.len()) as nat));
        assert(digits_val(t2) * pow10((k - t2.len()) as nat) == 10 * (f / 10))
            by (nonlinear_arith)
            requires
                digits_val(t2) * pow10(((k - 1) - t2.len()) as nat) == f / 10,
                pow10((k - t2.len()) as nat) == 10 * pow10(((k - 1) - t2.len()) as nat),
        ;
        assert(10 * (f / 10) == f);
    } else {
        lemma_digit_char(f % 10);
        assert(pd.last() == digit_char(f % 10));
        assert(digit_char(f % 10) != '0');
        assert(t == pd);
        assert(pow10((k - t.len()) as nat) == 1);
    }
}

/// The text of a scalar value holds no separator, starts with a minus
/// sign exactly when the value is negative, and is never empty.
pub proof fn lemma_scalar_text_chars(v: int)
    ensures
        ({
            let s = scalar_text(v);
            &&& s.len() >= 1
            &&& forall|i: int| 0 <= i < s.len() ==> s[i] != ' ' && #[trigger] s[i] != '\n'
            &&& (s[0] == '-') == (v < 0)
        }),
{
    let a = abs(v) as int;
    let ip = a / (SCALE as int);
    let fp = a % (SCALE as int);
    vstd::arithmetic::div_mod::lemma_div_pos_is_pos(a, SCALE as int);
    vstd::arithmetic::div_mod::lemma_mod_division_less_than_divisor(a, SCALE as int);
    lemma_dec_digits(ip);
    let s = scalar_text(v);
    assert forall|i: int| 0 <= i < s.len() implies s[i] != ' ' && #[trigger] s[i] != '\n' by {
        let dd = dec_digits(ip);
        let off: int = if v < 0 {
            1
        } else {
            0
        };
        if i < off {
            assert(s[i] == '-');
        } else if i < off + dd.len() {
            assert(s[i] == dd[i - off]);
            assert(is_digit(dd[i - off]));
        } else if i == off + dd.len() {
            assert(fp != 0);
            assert(s[i] == '.');
        } else {
            assert(fp != 0);
            lemma_pow10_concrete();
            lemma_trim_pad(fp, 6);
            let t = trim_zeros(pad_digits(fp, 6));
            assert(s[i] == t[i - off - dd.len() - 1]);
            assert(is_digit(t[i - off - dd.len() - 1]));
        }
    }
    if v < 0 {
        assert(s[0] == '-');
    } else {
        assert(s[0] == dec_digits(ip)[0]);
        assert(is_digit(dec_digits(ip)[0]));
    }
}

/// Reading back the text of a raw value within the tree's ranges
/// yields exactly that value.
pub proof fn lemma_scalar_round_trip(v: int)
    requires
        -1_000_000_000_000_000_000 < v < 1_000_000_000_000_000_000,
    ensures
        parse_scalar(scalar_text(v)) == Some(v as i64),
{
    let a = abs(v) as int;
    let ip = a / (SCALE as int);
    let fp = a % (SCALE as int);
    vstd::arithmetic::div_mod::lemma_div_pos_is_pos(a, SCALE as int);
    vstd::arithmetic::div_mod::lemma_mod_division_less_than_divisor(a, SCALE as int);
    vstd::arithmetic::div_mod::lemma_fundamental_div_mod(a, SCALE as int);
    lemma_dec_digits(ip);
    lemma_pow10_concrete();
    let s = scalar_text(v);
    let dd = dec_digits(ip);
    // the integer part has at most twelve digits
    assert(ip < 1_000_000_000_000) by {
        assert(a < 1_000_000_000_000_000_000);
        vstd::arithmetic::div_mod::lemma_multiply_divide_lt(a, 1_000_000_000_000, SCALE as int);
    }
    assert(dd.len() <= 12) by {
        if dd.len() > 12 {
            lemma_pow10_mono(12, (dd.len() - 1) as nat);
            assert(pow10(12) <= ip);
        }
    }
    let neg = v < 0;
    let body: Seq<char> = if fp == 0 {
        dd
    } else {
        dd + seq!['.'] + trim_zeros(pad_digits(fp, 6))
    };
    lemma_scalar_text_chars(v);
    if neg {
        assert(s =~= seq!['-'] + body);
        assert(s[0] == '-');
        assert(s.drop_first() =~= body);
    } else {
        assert(s =~= body);
        assert(is_digit(s[0]));
        assert(s[0] != '-') by {
            assert(s[0] as int != 45);
        }
    }
    if fp == 0 {
        assert(forall|j: int| 0 <= j < dd.len() ==> is_digit(#[trigger] dd[j]) && dd[j] != '.')
            by {
            assert(forall|j: int|
                0 <= j < dd.len() ==> is_digit(#[trigger] dd[j]) && dd[j] as int != 46);
        }
        lemma_find_char_at(body, '.', body.len() as int);
        assert(digits_val(body) * (SCALE as int) == ip * (SCALE as int));
        assert(ip * (SCALE as int) == a) by (nonlinear_arith)
            requires
                a == (SCALE as int) * ip + fp,
                fp == 0,
        ;
        if neg {
            assert(parse_scalar(s) == Some((-a) as i64));
            assert(-a == v);
        } else {
            assert(parse_scalar(s) == Some(a as i64));
        }
    } else {
        lemma_trim_pad(fp, 6);
        let t = trim_zeros(pad_digits(fp, 6));
        assert(forall|j: int| 0 <= j < dd.len() ==> is_digit(#[trigger] dd[j]) && dd[j] != '.')
            by {
            assert(forall|j: int|
                0 <= j < dd.len() ==> is_digit(#[trigger] dd[j]) && dd[j] as int != 46);
        }
        assert(body[dd.len() as int] == '.');
        lemma_find_char_at(body, '.', dd.len() as int);
        assert(body.take(dd.len() as int) =~= dd);
        assert(body.skip(dd.len() as int + 1) =~= t);
        let val = digits_val(dd) * (SCALE as int) + digits_val(t) * pow10((6 - t.len()) as nat);
        assert(val == a) by (nonlinear_arith)
            requires
                digits_val(dd) == ip,
                digits_val(t) * pow10((6 - t.len()) as nat) == fp,
                a == (SCALE as int) * ip + fp,
                val == digits_val(dd) * (SCALE as int) + digits_val(t) * pow10(
                    (6 - t.len()) as nat,
                ),
        ;
        if neg {
            assert(parse_scalar(s) == Some((-a) as i64));
            assert(-a == v);
        } else {
            assert(parse_scalar(s) == Some(a as i64));
        }
    }
}

/// No character of `s` is `c`.
pub open spec fn has_no(s: Seq<char>, c: char) -> bool {
    forall|i: int| 0 <= i < s.len() ==> s[i] != c
}

/// Freedom from a character survives concatenation.
pub proof fn lemma_has_no_concat(a: Seq<char>, b: Seq<char>, c: char)
    requires
        has_no(a, c),
        has_no(b, c),
    ensures
        has_no(a + b, c),
{
    assert forall|i: int| 0 <= i < (a + b).len() implies (a + b)[i] != c by {
        if i < a.len() {
            assert((a + b)[i] == a[i]);
        } else {
            assert((a + b)[i] == b[i - a.len()]);
        }
    }
}

/// Filtering for non-emptiness keeps a sequence whose pieces are all
/// non-empty.
pub proof fn lemma_filter_nonempty_all(s: Seq<Seq<char>>)
    requires
        forall|i: int| 0 <= i < s.len() ==> #[trigger] s[i].len() > 0,
    ensures
        s.filter(|t: Seq<char>| t.len() > 0) == s,
    decreases s.len(),
{
    if s.len() > 0 {
        let d = s.drop_last();
        assert(forall|i: int| 0 <= i < d.len() ==> #[trigger] d[i].len() > 0) by {
            assert(forall|i: int| 0 <= i < d.len() ==> d[i] == #[trigger] s[i]);
        }
        lemma_filter_nonempty_all(d);
        d.lemma_filter_push(s.last(), |t: Seq<char>| t.len() > 0);
        assert(s =~= d.push(s.last()));
        assert(s.filter(|t: Seq<char>| t.len() > 0) =~= s);
    }
}

/// Every split has at least one piece.
pub proof fn lemma_split_len(s: Seq<char>, c: char)
    ensures
        split_on(s, c).len() >= 1,
{
    lemma_find_char(s, c);
}

/// The tokens of one body's text: the eight field texts, with no
/// newline anywhere.
#[verifier::rlimit(100)]
pub proof fn lemma_line_tokens(e: Entity)
    ensures
        ({
            let toks = seq![
                scalar_text(e.x as int),
                scalar_text(e.y as int),
                scalar_text(e.z as int),
                scalar_text(e.vx as int),
                scalar_text(e.vy as int),
                scalar_text(e.vz as int),
                scalar_text(e.mass as int),
                scalar_text(e.radius as int),
            ];
            &&& split_on(entity_line(e), ' ') == toks
            &&& forall|i: int| 0 <= i < toks.len() ==> #[trigger] toks[i].len() > 0
        }),
        has_no(entity_line(e), '\n'),
{
    let t1 = scalar_text(e.x as int);
    let t2 = scalar_text(e.y as int);
    let t3 = scalar_text(e.z as int);
    let t4 = scalar_text(e.vx as int);
    let t5 = scalar_text(e.vy as int);
    let t6 = scalar_text(e.vz as int);
    let t7 = scalar_text(e.mass as int);
    let t8 = scalar_text(e.radius as int);
    lemma_scalar_text_chars(e.x as int);
    lemma_scalar_text_chars(e.y as int);
    lemma_scalar_text_chars(e.z as int);
    lemma_scalar_text_chars(e.vx as int);
    lemma_scalar_text_chars(e.vy as int);
    lemma_scalar_text_chars(e.vz as int);
    lemma_scalar_text_chars(e.mass as int);
    lemma_scalar_text_chars(e.radius as int);
    let line = entity_line(e);
    let r8 = t8;
    let r7 = t7 + seq![' '] + r8;
    let r6 = t6 + seq![' '] + r7;
    let r5 = t5 + seq![' '] + r6;
    let r4 = t4 + seq![' '] + r5;
    let r3 = t3 + seq![' '] + r4;
    let r2 = t2 + seq![' '] + r3;
    let r1 = t1 + seq![' '] + r2;
    assert(line =~= r1);
    lemma_split_step(t1, r2, ' ');
    lemma_split_step(t2, r3, ' ');
    lemma_split_step(t3, r4, ' ');
    lemma_split_step(t4, r5, ' ');
    lemma_split_step(t5, r6, ' ');
    lemma_split_step(t6, r7, ' ');
    lemma_split_step(t7, r8, ' ');
    lemma_split_single(t8, ' ');
    let toks = seq![t1, t2, t3, t4, t5, t6, t7, t8];
    assert(split_on(line, ' ') =~= toks);
    let sp = seq![' '];
    assert(has_no(sp, '\n'));
    lemma_has_no_concat(t7, sp, '\n');
    lemma_has_no_concat(t7 + sp, r8, '\n');
    lemma_has_no_concat(t6, sp, '\n');
    lemma_has_no_concat(t6 + sp, r7, '\n');
    lemma_has_no_concat(t5, sp, '\n');
    lemma_has_no_concat(t5 + sp, r6, '\n');
    lemma_has_no_concat(t4, sp, '\n');
    lemma_has_no_concat(t4 + sp, r5, '\n');
    lemma_has_no_concat(t3, sp, '\n');
    lemma_has_no_concat(t3 + sp, r4, '\n');
    lemma_has_no_concat(t2, sp, '\n');
    lemma_has_no_concat(t2 + sp, r3, '\n');
    lemma_has_no_concat(t1, sp, '\n');
    lemma_has_no_concat(t1 + sp, r2, '\n');
}

/// Reading back the text of one well-formed body yields exactly that
/// body; the text holds no newline.
#[verifier::rlimit(100)]
pub proof fn lemma_line_round_trip(e: Entity)
    requires
        e.wf(),
    ensures
        parse_line(entity_line(e)) == Some(e),
        has_no(entity_line(e), '\n'),
{
    lemma_line_tokens(e);
    let toks = seq![
        scalar_text(e.x as int),
        scalar_text(e.y as int),
        scalar_text(e.z as int),
        scalar_text(e.vx as int),
        scalar_text(e.vy as int),
        scalar_text(e.vz as int),
        scalar_text(e.mass as int),
        scalar_text(e.radius as int),
    ];
    lemma_filter_nonempty_all(toks);
    lemma_scalar_round_trip(e.x as int);
    lemma_scalar_round_trip(e.y as int);
    lemma_scalar_round_trip(e.z as int);
    lemma_scalar_round_trip(e.vx as int);
    lemma_scalar_round_trip(e.vy as int);
    lemma_scalar_round_trip(e.vz as int);
    lemma_scalar_round_trip(e.mass as int);
    lemma_scalar_round_trip(e.radius as int);
    assert(parse_line(entity_line(e)) == Some(e));
}

/// Round trip: reading back the text of a well-formed body set yields
/// exactly those bodies, last written first — the same multiset of
/// records.
pub proof fn lemma_file_round_trip(s: Seq<Entity>)
    requires
        crate::utilities::all_wf(s),
    ensures
        parse_text(file_text(s)) is Some,
        parse_text(file_text(s))->0 == s.reverse(),
        parse_text(file_text(s))->0.to_multiset() == s.to_multiset(),
    decreases s.len(),
{
    if s.len() == 0 {
        let empty = Seq::<char>::empty();
        assert(file_text(s) == empty);
        lemma_find_char_at(empty, '\n', 0);
        assert(split_on(empty, '\n') == seq![empty]);
        assert(seq![empty].drop_last() =~= Seq::<Seq<char>>::empty());
        assert(parse_text(empty) == Some(Seq::<Entity>::empty()));
        assert(s.reverse() =~= Seq::<Entity>::empty());
        assert(s =~= Seq::<Entity>::empty());
    } else {
        let e = s.last();
        assert(e.wf());
        let rest = s.drop_last();
        assert(crate::utilities::all_wf(rest)) by {
            assert(forall|i: int| 0 <= i < rest.len() ==> rest[i] == #[trigger] s[i]);
        }
        lemma_line_round_trip(e);
        lemma_file_round_trip(rest);
        let line = entity_line(e);
        let ft = file_text(s);
        assert(ft == line + seq!['\n'] + file_text(rest));
        lemma_split_step(line, file_text(rest), '\n');
        let pr = split_on(file_text(rest), '\n');
        lemma_split_len(file_text(rest), '\n');
        assert(split_on(ft, '\n') == seq![line] + pr);
        assert((seq![line] + pr).drop_last() =~= seq![line] + pr.drop_last());
        let ls = seq![line] + pr.drop_last();
        assert(ls[0] == line);
        assert(ls.drop_first() =~= pr.drop_last());
        assert(parse_records(pr.drop_last()) == Some(rest.reverse()));
        assert(parse_records(ls) == Some(seq![e] + rest.reverse()));
        assert(s.reverse() =~= seq![e] + rest.reverse());
        s.lemma_reverse_to_multiset();
    }
}

/// The concrete powers of ten the codec reasons with.
pub proof fn lemma_pow10_concrete()
    ensures
        pow10(0) == 1,
        pow10(1) == 10,
        pow10(2) == 100,
        pow10(3) == 1000,
        pow10(4) == 10000,
        pow10(5) == 100000,
        pow10(6) == 1000000,
        pow10(12) == 1_000_000_000_000,
{
    assert(pow10(0) == 1);
    assert(pow10(1) == 10);
    assert(pow10(2) == 100);
    assert(pow10(3) == 1000);
    assert(pow10(4) == 10000);
    assert(pow10(5) == 100000);
    assert(pow10(6) == 1000000);
    assert(pow10(7) == 10000000);
    assert(pow10(8) == 100000000);
    assert(pow10(9) == 1000000000);
    assert(pow10(10) == 10000000000);
    assert(pow10(11) == 100000000000);
    assert(pow10(12) == 1_000_000_000_000);
}

/// The characters of `s`, one by one.
pub fn str_to_chars(s: &str) -> (r: Vec<char>)
    ensures
        r@ == s@,
{
    let n = s.unicode_len();
    let mut out: Vec<char> = Vec::new();
    let mut i: usize = 0;
    while i < n
        invariant
            i <= n,
            n == s@.len(),
            out@ == s@.take(i as int),
        decreases n - i,
    {
        out.push(s.get_char(i));
        proof {
            assert(out@ =~= s@.take(i + 1));
        }
        i = i + 1;
    }
    proof {
        assert(s@.take(n as int) =~= s@);
    }
    out
}

/// Splits the characters at every occurrence of the separator.
pub fn split_chars(v: &Vec<char>, sep: char) -> (r: Vec<Vec<char>>)
    ensures
        r@.map_values(|p: Vec<char>| p@) == split_on(v@, sep),
{
    let mut pieces: Vec<Vec<char>> = Vec::new();
    let mut cur: Vec<char> = Vec::new();
    let mut i: usize = 0;
    proof {
        assert(v@.skip(0) =~= v@);
        assert(cur@ + v@ =~= v@);
        assert(pieces@.map_values(|p: Vec<char>| p@) =~= Seq::<Seq<char>>::empty());
    }
    while i < v.len()
        invariant
            i <= v@.len(),
            forall|j: int| 0 <= j < cur@.len() ==> cur@[j] != sep,
            split_on(v@, sep) == pieces@.map_values(|p: Vec<char>| p@) + split_on(
                cur@ + v@.skip(i as int),
                sep,
            ),
        decreases v@.len() - i,
    {
        let c = v[i];
        if c == sep {
            proof {
                lemma_split_step(cur@, v@.skip(i as int + 1), sep);
                assert(cur@ + v@.skip(i as int) =~= cur@ + seq![sep] + v@.skip(i as int + 1));
            }
            let ghost p0 = pieces@;
            let ghost c0 = cur@;
            pieces.push(cur);
            cur = Vec::new();
            proof {
                assert(pieces@.map_values(|p: Vec<char>| p@) =~= p0.map_values(
                    |p: Vec<char>| p@,
                ) + seq![c0]);
                assert(cur@ + v@.skip(i as int + 1) =~= v@.skip(i as int + 1));
            }
        } else {
            let ghost c0 = cur@;
            cur.push(c);
            proof {
                assert(cur@ + v@.skip(i as int + 1) =~= c0 + v@.skip(i as int));
            }
        }
        i = i + 1;
    }
    proof {
        assert(v@.skip(v@.len() as int) =~= Seq::<char>::empty());
        assert(cur@ + v@.skip(v@.len() as int) =~= cur@);
        lemma_split_single(cur@, sep);
    }
    let ghost p0 = pieces@;
    let ghost c0 = cur@;
    pieces.push(cur);
    proof {
        assert(pieces@.map_values(|p: Vec<char>| p@) =~= p0.map_values(|p: Vec<char>| p@)
            + seq![c0]);
        assert(p0.map_values(|p: Vec<char>| p@) + seq![c0] =~= split_on(v@, sep));
    }
    pieces
}

/// The first occurrence of `c` within `[lo, hi)`, or `hi`.
fn find_from(t: &Vec<char>, lo: usize, hi: usize, c: char) -> (r: usize)
    requires
        lo <= hi <= t@.len(),
    ensures
        lo <= r <= hi,
        r as int - lo == find_char(t@.subrange(lo as int, hi as int), c),
        r < hi ==> t@[r as int] == c,
        forall|j: int| lo <= j < r ==> t@[j] != c,
    decreases t@.len(),
{
    let ghost sub = t@.subrange(lo as int, hi as int);
    let mut j: usize = lo;
    while j < hi
        invariant
            lo <= j <= hi <= t@.len(),
            sub == t@.subrange(lo as int, hi as int),
            forall|l: int| lo <= l < j ==> t@[l] != c,
        decreases hi - j,
    {
        if t[j] == c {
            proof {
                assert forall|l: int| 0 <= l < j - lo implies sub[l] != c by {
                    assert(sub[l] == t@[lo + l]);
                }
                assert(sub[j - lo] == t@[j as int]);
                lemma_find_char_at(sub, c, j - lo);
            }
            return j;
        }
        j = j + 1;
    }
    proof {
        assert forall|l: int| 0 <= l < sub.len() implies sub[l] != c by {
            assert(sub[l] == t@[lo + l]);
        }
        lemma_find_char_at(sub, c, sub.len() as int);
    }
    hi
}

/// Whether every character within `[lo, hi)` is a decimal digit.
fn check_digits(t: &Vec<char>, lo: usize, hi: usize) -> (r: bool)
    requires
        lo <= hi <= t@.len(),
    ensures
        r == all_digits(t@.subrange(lo as int, hi as int)),
{
    let ghost sub = t@.subrange(lo as int, hi as int);
    let mut j: usize = lo;
    while j < hi
        invariant
            lo <= j <= hi <= t@.len(),
            sub == t@.subrange(lo as int, hi as int),
            forall|l: int| lo <= l < j ==> is_digit(#[trigger] t@[l]),
        decreases hi - j,
    {
        let c = t[j];
        proof {
            assert(sub[j - lo] == t@[j as int]);
        }
        if c < '0' || c > '9' {
            proof {
                assert(!is_digit(sub[j - lo]));
            }
            return false;
        }
        proof {
            assert(is_digit(t@[j as int]));
        }
        j = j + 1;
    }
    proof {
        assert forall|l: int| 0 <= l < sub.len() implies is_digit(#[trigger] sub[l]) by {
            assert(sub[l] == t@[lo + l]);
        }
    }
    true
}

/// The decimal value of the digits within `[lo, hi)`.
fn digits_value(t: &Vec<char>, lo: usize, hi: usize) -> (r: u64)
    requires
        lo <= hi <= t@.len(),
        hi - lo <= 12,
        all_digits(t@.subrange(lo as int, hi as int)),
    ensures
        r as int == digits_val(t@.subrange(lo as int, hi as int)),
        r < 1_000_000_000_000u64,
{
    let ghost sub = t@.subrange(lo as int, hi as int);
    proof {
        lemma_pow10_concrete();
    }
    let mut val: u64 = 0;
    let mut j: usize = lo;
    while j < hi
        invariant
            lo <= j <= hi <= t@.len(),
            hi - lo <= 12,
            all_digits(sub),
            sub == t@.subrange(lo as int, hi as int),
            val as int == digits_val(t@.subrange(lo as int, j as int)),
            (val as int) < pow10((j - lo) as nat),
        decreases hi - j,
    {
        let ghost pre = t@.subrange(lo as int, j as int);
        let c = t[j];
        proof {
            assert(sub[j - lo] == t@[j as int]);
            assert(is_digit(t@[j as int]));
            let nxt = t@.subrange(lo as int, j as int + 1);
            assert(nxt.drop_last() =~= pre);
            assert(nxt.last() == t@[j as int]);
            lemma_pow10_concrete();
            assert(pow10(((j + 1) - lo) as nat) == 10 * pow10((j - lo) as nat));
            assert(pow10((j - lo) as nat) <= pow10(11)) by {
                lemma_pow10_mono((j - lo) as nat, 11);
            }
        }
        val = val * 10 + ((c as u32 - 48) as u64);
        j = j + 1;
    }
    proof {
        lemma_pow10_mono((hi - lo) as nat, 12);
    }
    val
}

/// Powers of ten multiply by adding exponents.
pub proof fn lemma_pow10_add(a: nat, b: nat)
    ensures
        pow10(a) * pow10(b) == pow10((a + b) as nat),
    decreases a,
{
    if a == 0 {
        assert(pow10(0) * pow10(b) == pow10(b)) by (nonlinear_arith)
            requires
                pow10(0) == 1,
        ;
    } else {
        lemma_pow10_add((a - 1) as nat, b);
        assert(pow10(a) * pow10(b) == 10 * (pow10((a - 1) as nat) * pow10(b)))
            by (nonlinear_arith)
            requires
                pow10(a) == 10 * pow10((a - 1) as nat),
        ;
    }
}

/// Powers of ten do not shrink as the exponent grows.
pub proof fn lemma_pow10_mono(a: nat, b: nat)
    requires
        a <= b,
    ensures
        pow10(a) <= pow10(b),
        pow10(a) >= 1,
    decreases b,
{
    if b > 0 {
        if a == b {
            lemma_pow10_mono((b - 1) as nat, (b - 1) as nat);
        } else {
            lemma_pow10_mono(a, (b - 1) as nat);
        }
    }
}

/// Ten to a small power, as a run-time value.
fn pow10_u64(k: u64) -> (r: u64)
    requires
        k <= 6,
    ensures
        r as int == pow10(k as nat),
{
    proof {
        lemma_pow10_concrete();
    }
    if k == 0 {
        1
    } else if k == 1 {
        10
    } else if k == 2 {
        100
    } else if k == 3 {
        1000
    } else if k == 4 {
        10000
    } else if k == 5 {
        100000
    } else {
        1000000
    }
}

/// Parses one numeric field.
pub fn parse_scalar_chars(t: &Vec<char>) -> (r: Option<i64>)
    ensures
        r == parse_scalar(t@),
{
    let n = t.len();
    let neg = n > 0 && t[0] == '-';
    let start: usize = if neg {
        1
    } else {
        0
    };
    let ghost body = if neg {
        t@.drop_first()
    } else {
        t@
    };
    proof {
        assert(body =~= t@.subrange(start as int, n as int));
        lemma_pow10_concrete();
    }
    let dot = find_from(t, start, n, '.');
    if dot == n {
        if n - start >= 1 && n - start <= 12 && check_digits(t, start, n) {
            let dv = digits_value(t, start, n);
            let v = (dv * 1_000_000) as i64;
            if neg {
                Some(-v)
            } else {
                Some(v)
            }
        } else {
            None
        }
    } else {
        proof {
            assert(body.take(dot as int - start) =~= t@.subrange(start as int, dot as int));
            assert(body.skip(dot as int - start + 1) =~= t@.subrange(dot as int + 1, n as int));
        }
        let ip_ok = dot - start >= 1 && dot - start <= 12 && check_digits(t, start, dot);
        let fp_ok = n - dot - 1 >= 1 && n - dot - 1 <= 6 && check_digits(t, dot + 1, n);
        if ip_ok && fp_ok {
            let iv = digits_value(t, start, dot);
            let fv = digits_value(t, dot + 1, n);
            proof {
                lemma_digits_val_bound(t@.subrange(dot as int + 1, n as int));
                lemma_pow10_mono((6 - (n - dot - 1)) as nat, 6);
                lemma_pow10_add((n - (dot + 1)) as nat, (6 - (n - (dot + 1))) as nat);
                assert(fv as int * pow10((6 - (n - (dot + 1))) as nat) < 1_000_000_000_000int)
                    by (nonlinear_arith)
                    requires
                        0 <= fv as int && (fv as int) < pow10((n - (dot + 1)) as nat),
                        1 <= pow10((6 - (n - (dot + 1))) as nat),
                        pow10((n - (dot + 1)) as nat) * pow10((6 - (n - (dot + 1))) as nat)
                            <= 1_000_000int,
                ;
            }
            let mult = pow10_u64((6 - (n - dot - 1)) as u64);
            let v = (iv * 1_000_000 + fv * mult) as i64;
            if neg {
                Some(-v)
            } else {
                Some(v)
            }
        } else {
            None
        }
    }
}

/// Parses one record line: eight space-separated numeric fields.
pub fn parse_line_chars(l: &Vec<char>) -> (r: Option<Entity>)
    ensures
        r == parse_line(l@),
{
    let toks = split_chars(l, ' ');
    let ghost tv = toks@.map_values(|p: Vec<char>| p@);
    let mut fil: Vec<Vec<char>> = Vec::new();
    let mut i: usize = 0;
    proof {
        assert(tv.take(0) =~= Seq::<Seq<char>>::empty());
        assert(Seq::<Seq<char>>::empty().filter(|t: Seq<char>| t.len() > 0)
            =~= Seq::<Seq<char>>::empty());
        assert(fil@.map_values(|p: Vec<char>| p@) =~= Seq::<Seq<char>>::empty());
    }
    while i < toks.len()
        invariant
            i <= toks@.len(),
            tv == toks@.map_values(|p: Vec<char>| p@),
            fil@.map_values(|p: Vec<char>| p@) == tv.take(i as int).filter(
                |t: Seq<char>| t.len() > 0,
            ),
        decreases toks@.len() - i,
    {
        proof {
            assert(tv.take(i + 1) =~= tv.take(i as int).push(tv[i as int]));
            tv.take(i as int).lemma_filter_push(tv[i as int], |t: Seq<char>| t.len() > 0);
            assert(tv[i as int] == toks@[i as int]@);
        }
        if toks[i].len() > 0 {
            let ghost f0 = fil@;
            let t = &toks[i];
            fil.push(t.clone());
            proof {
                assert(fil@.map_values(|p: Vec<char>| p@) =~= f0.map_values(|p: Vec<char>| p@)
                    + seq![tv[i as int]]);
            }
        }
        i = i + 1;
    }
    proof {
        assert(tv.take(toks@.len() as int) =~= tv);
    }
    let ghost toksf = split_on(l@, ' ').filter(|t: Seq<char>| t.len() > 0);
    if fil.len() != 8 {
        return None;
    }
    proof {
        assert(forall|j: int|
            0 <= j < 8 ==> #[trigger] fil@[j]@ == toksf[j]);
    }
    let fx = parse_scalar_chars(&fil[0]);
    let fy = parse_scalar_chars(&fil[1]);
    let fz = parse_scalar_chars(&fil[2]);
    let fvx = parse_scalar_chars(&fil[3]);
    let fvy = parse_scalar_chars(&fil[4]);
    let fvz = parse_scalar_chars(&fil[5]);
    let fm = parse_scalar_chars(&fil[6]);
    let fr = parse_scalar_chars(&fil[7]);
    match (fx, fy, fz, fvx, fvy, fvz, fm, fr) {
        (
            Some(x),
            Some(y),
            Some(z),
            Some(vx),
            Some(vy),
            Some(vz),
            Some(mass),
            Some(radius),
        ) => Some(Entity { x, y, z, vx, vy, vz, mass, radius }),
        _ => None,
    }
}

/// Parses a whole body file: one record per newline-terminated line,
/// ignoring anything after the last newline.
pub fn parse_text_str(s: &str) -> (r: Option<Vec<Entity>>)
    ensures
        (r is Some) == (parse_text(s@) is Some),
        r is Some ==> r->0@ == parse_text(s@)->0,
{
    let chars = str_to_chars(s);
    let pieces = split_chars(&chars, '\n');
    let ghost pv = pieces@.map_values(|p: Vec<char>| p@);
    let ghost ls = pv.drop_last();
    let n = pieces.len();
    proof {
        assert(pv.len() == split_on(s@, '\n').len());
        assert(pv =~= split_on(s@, '\n'));
    }
    let mut out: Vec<Entity> = Vec::new();
    let mut i: usize = 0;
    proof {
        assert(ls.skip(0) =~= ls);
    }
    while i < n - 1
        invariant
            1 <= n == pieces@.len(),
            i <= ls.len(),
            pv == pieces@.map_values(|p: Vec<char>| p@),
            pv == split_on(s@, '\n'),
            ls == pv.drop_last(),
            ls.len() == n - 1,
            (parse_records(ls) is Some) == (parse_records(ls.skip(i as int)) is Some),
            parse_records(ls) is Some ==> parse_records(ls)->0 == out@ + parse_records(
                ls.skip(i as int),
            )->0,
        decreases n - 1 - i,
    {
        proof {
            assert(ls.skip(i as int)[0] == ls[i as int]);
            assert(ls.skip(i as int).drop_first() =~= ls.skip(i as int + 1));
            assert(pieces@[i as int]@ == pv[i as int]);
            assert(ls[i as int] == pv[i as int]);
        }
        let e = match parse_line_chars(&pieces[i]) {
            Some(e) => e,
            None => {
                return None;
            },
        };
        out.push(e);
        proof {
            if parse_records(ls) is Some {
                assert(out@ + parse_records(ls.skip(i as int + 1))->0 =~= (out@.drop_last()
                    + seq![e]) + parse_records(ls.skip(i as int + 1))->0);
                assert(out@.drop_last() + (seq![e] + parse_records(ls.skip(i as int + 1))->0)
                    =~= (out@.drop_last() + seq![e]) + parse_records(ls.skip(i as int + 1))->0);
            }
        }
        i = i + 1;
    }
    proof {
        assert(ls.skip(ls.len() as int) =~= Seq::<Seq<char>>::empty());
        if parse_records(ls) is Some {
            assert(out@ + Seq::<Entity>::empty() =~= out@);
        }
    }
    Some(out)
}

/// Appends the decimal digits of `n` to `out`.
fn push_uint(out: &mut String, n: u64)
    ensures
        final(out)@ == old(out)@ + dec_digits(n as int),
    decreases n,
{
    if n < 10 {
        out.push((48 + (n as u8)) as char);
        proof {
            assert(final(out)@ =~= old(out)@ + dec_digits(n as int));
        }
    } else {
        push_uint(out, n / 10);
        out.push((48 + ((n % 10) as u8)) as char);
        proof {
            assert(final(out)@ =~= old(out)@ + dec_digits(n as int));
        }
    }
}

/// Appends exactly `k` zero-padded decimal digits of `n` to `out`.
fn push_padded(out: &mut String, n: u64, k: u8)
    ensures
        final(out)@ == old(out)@ + pad_digits(n as int, k as nat),
    decreases k,
{
    if k == 0 {
        proof {
            assert(final(out)@ =~= old(out)@ + pad_digits(n as int, 0));
        }
    } else {
        push_padded(out, n / 10, k - 1);
        out.push((48 + ((n % 10) as u8)) as char);
        proof {
            assert(final(out)@ =~= old(out)@ + pad_digits(n as int, k as nat));
        }
    }
}

/// Appends the text of the raw fixed-point value `v` to `out`.
pub fn push_scalar(out: &mut String, v: i64)
    ensures
        final(out)@ == old(out)@ + scalar_text(v as int),
{
    let a: u64 = if v >= 0 {
        v as u64
    } else {
        (-(v as i128)) as u64
    };
    proof {
        assert(a as int == abs(v as int) as int);
    }
    if v < 0 {
        out.push('-');
    }
    let ip: u64 = a / 1_000_000;
    let fp: u64 = a % 1_000_000;
    proof {
        assert(SCALE as int == 1_000_000int);
        assert(ip as int == (abs(v as int) as int) / (SCALE as int));
        assert(fp as int == (abs(v as int) as int) % (SCALE as int));
    }
    push_uint(out, ip);
    if fp != 0 {
        out.push('.');
        let mut f: u64 = fp;
        let mut k: u8 = 6;
        while k > 0 && f % 10 == 0
            invariant
                0 <= k <= 6,
                f as int >= 0,
                trim_zeros(pad_digits(fp as int, 6)) == trim_zeros(pad_digits(f as int, k as nat)),
            decreases k,
        {
            proof {
                let pd = pad_digits(f as int, k as nat);
                assert(pd.drop_last() =~= pad_digits(f as int / 10, (k - 1) as nat));
                assert(pd.last() == digit_char(f as int % 10));
                assert(digit_char(0) == '0');
            }
            f = f / 10;
            k = k - 1;
        }
        proof {
            if k > 0 {
                let pd = pad_digits(f as int, k as nat);
                assert(pd.last() == digit_char(f as int % 10));
                assert(f as int % 10 != 0 ==> pd.last() != '0') by {
                    if f as int % 10 != 0 {
                        assert(digit_char(f as int % 10) != '0');
                    }
                }
                assert(trim_zeros(pd) == pd);
            } else {
                assert(pad_digits(f as int, 0) =~= Seq::<char>::empty());
                assert(trim_zeros(Seq::<char>::empty()) =~= Seq::<char>::empty());
            }
        }
        push_padded(out, f, k);
    }
    proof {
        assert(final(out)@ =~= old(out)@ + scalar_text(v as int));
    }
}

impl Entity {
    /// Returns the entity as a string with space separated values:
    /// position, velocity, mass and radius.
    pub fn as_string(&self) -> (r: String)
        ensures
            r@ == entity_line(*self),
    {
        let mut out = String::new();
        push_scalar(&mut out, self.x);
        out.push(' ');
        push_scalar(&mut out, self.y);
        out.push(' ');
        push_scalar(&mut out, self.z);
        out.push(' ');
        push_scalar(&mut out, self.vx);
        out.push(' ');
        push_scalar(&mut out, self.vy);
        out.push(' ');
        push_scalar(&mut out, self.vz);
        out.push(' ');
        push_scalar(&mut out, self.mass);
        out.push(' ');
        push_scalar(&mut out, self.radius);
        proof {
            assert(out@ =~= entity_line(*self));
        }
        out
    }
}

/// The text of a whole body set, written back to front with one body
/// per line and a terminating newline.
pub fn data_string_of(bodies: Vec<Entity>) -> (r: String)
    ensures
        r@ == file_text(bodies@),
{
    let mut out = String::new();
    let mut w = bodies;
    while w.len() > 0
        invariant
            out@ + file_text(w@) == file_text(bodies@),
        decreases w.len(),
    {
        let ghost pre = w@;
        let e = match w.pop() {
            Some(e) => e,
            None => {
                proof {
                    assert(false);
                }
                return out;
            },
        };
        proof {
            assert(pre.last() == e);
            assert(pre.drop_last() =~= w@);
        }
        let line = e.as_string();
        out.append(line.as_str());
        out.push('\n');
        proof {
            assert(out@ + file_text(w@) =~= file_text(bodies@));
        }
    }
    out
}

} // verus!
