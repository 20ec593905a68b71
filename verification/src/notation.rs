//! What stands in the text of a model, told by how it is put together from
//! pieces.

use crate::model::{
    arity, digits, is_blank, is_complete, is_decimal, is_exponent, is_known, is_letter,
    is_model_text, is_named, is_number, is_word, line_end, lines, names_are_known, operations,
    unsigned, without_return, word_end, words,
};
use vstd::prelude::*;

verus! {

// ---------------------------------------------------------------------------
// Numbers
// ---------------------------------------------------------------------------

/// Decimal digits, any number of them.
pub open spec fn is_run(s: Seq<char>) -> bool {
    forall|i: int| 0 <= i < s.len() ==> '0' <= #[trigger] s[i] <= '9'
}

/// A sign, or nothing.
pub open spec fn is_sign(s: Seq<char>) -> bool {
    s.len() == 0 || s == seq!['+'] || s == seq!['-']
}

/// What stands behind the digits of a number: nothing, or `e` with a number of
/// digits, which may have a sign.
pub open spec fn is_scale(s: Seq<char>) -> bool {
    s.len() == 0 || exists|e: char, sign: Seq<char>, n: Seq<char>|
        s == #[trigger] (seq![e] + sign + n) && (e == 'e' || e == 'E') && is_sign(sign) && is_run(n)
            && n.len() > 0
}

/// Digits before the point, the point with digits behind it, and a scale: the
/// point can be missing, and digits on one side of it are enough.
pub open spec fn is_fixed(whole: Seq<char>, fraction: Seq<char>, scale: Seq<char>) -> bool {
    &&& is_run(whole)
    &&& is_scale(scale)
    &&& if fraction.len() == 0 {
        whole.len() > 0
    } else {
        fraction[0] == '.' && is_run(fraction.drop_first()) && whole.len() + fraction.len() > 1
    }
}

/// A capital letter as a small one.
pub open spec fn lower(c: char) -> char {
    if 'A' <= c <= 'Z' {
        (c as u32 + 32) as char
    } else {
        c
    }
}

/// One of the words for what no digits stand for, in letters of any case.
pub open spec fn is_special(s: Seq<char>) -> bool {
    let small = Seq::new(s.len(), |i: int| lower(s[i]));
    small == "inf"@ || small == "infinity"@ || small == "nan"@
}

/// A number without its sign.
pub open spec fn is_magnitude(s: Seq<char>) -> bool {
    is_special(s) || exists|whole: Seq<char>, fraction: Seq<char>, scale: Seq<char>|
        s == #[trigger] (whole + fraction + scale) && is_fixed(whole, fraction, scale)
}

proof fn digits_run(w: Seq<char>)
    ensures
        0 <= digits(w) <= w.len(),
        is_run(w.take(digits(w))),
        digits(w) < w.len() ==> !('0' <= w[digits(w)] <= '9'),
    decreases w.len(),
{
    if w.len() > 0 && '0' <= w[0] <= '9' {
        let t = w.drop_first();
        let n = digits(t);
        digits_run(t);
        assert forall|i: int| 0 <= i < digits(w) implies '0' <= #[trigger] w.take(digits(w))[i]
            <= '9' by {
            if i > 0 {
                assert(t.take(n)[i - 1] == w[i]);
            }
        }
        if digits(w) < w.len() {
            assert(t[n] == w[digits(w)]);
        }
    }
}

proof fn run_ends(a: Seq<char>, rest: Seq<char>)
    requires
        is_run(a),
        rest.len() > 0 ==> !('0' <= rest[0] <= '9'),
    ensures
        digits(a + rest) == a.len(),
    decreases a.len(),
{
    let s = a + rest;
    if a.len() > 0 {
        let t = a.drop_first();
        assert(s.drop_first() =~= t + rest);
        assert(s[0] == a[0]);
        assert forall|i: int| 0 <= i < t.len() implies '0' <= #[trigger] t[i] <= '9' by {
            assert(t[i] == a[i + 1]);
        }
        run_ends(t, rest);
    } else {
        assert(s =~= rest);
    }
}

proof fn unsigned_parts(w: Seq<char>) -> (sign: Seq<char>)
    ensures
        is_sign(sign),
        w == sign + unsigned(w),
{
    if unsigned(w) == w {
        assert(w =~= Seq::<char>::empty() + w);
        Seq::empty()
    } else {
        assert(w =~= seq![w[0]] + unsigned(w));
        seq![w[0]]
    }
}

proof fn sign_is_passed(sign: Seq<char>, m: Seq<char>)
    requires
        is_sign(sign),
        m.len() > 0,
        m[0] != '+' && m[0] != '-',
    ensures
        unsigned(sign + m) == m,
{
    let w = sign + m;
    if sign.len() == 0 {
        assert(w =~= m);
    } else {
        assert(w[0] == sign[0]);
        assert(w.drop_first() =~= m);
    }
}

proof fn scales(s: Seq<char>)
    ensures
        is_exponent(s) <==> is_scale(s),
{
    if s.len() > 0 {
        let t = s.drop_first();
        let n = unsigned(t);
        digits_run(n);
        if is_exponent(s) {
            let sign = unsigned_parts(t);
            assert(n.take(digits(n)) =~= n);
            assert(s =~= seq![s[0]] + sign + n);
        }
        if is_scale(s) {
            let (e, sign, m) = choose|e: char, sign: Seq<char>, n: Seq<char>|
                s == #[trigger] (seq![e] + sign + n) && (e == 'e' || e == 'E') && is_sign(sign)
                    && is_run(n) && n.len() > 0;
            assert(s[0] == e);
            assert(t =~= sign + m);
            assert('0' <= m[0] <= '9');
            sign_is_passed(sign, m);
            run_ends(m, Seq::empty());
            assert(m + Seq::<char>::empty() =~= m);
        }
    }
}

proof fn fixed_numbers(s: Seq<char>)
    ensures
        is_decimal(s) <==> exists|whole: Seq<char>, fraction: Seq<char>, scale: Seq<char>|
            s == #[trigger] (whole + fraction + scale) && is_fixed(whole, fraction, scale),
{
    let a = digits(s);
    digits_run(s);
    let whole = s.take(a);
    if is_decimal(s) {
        if a < s.len() && s[a] == '.' {
            let behind = s.skip(a + 1);
            let b = digits(behind);
            digits_run(behind);
            let fraction = s.subrange(a, a + 1 + b);
            let scale = s.skip(a + 1 + b);
            scales(scale);
            assert(fraction.drop_first() =~= behind.take(b));
            assert(s =~= whole + fraction + scale);
            assert(is_fixed(whole, fraction, scale));
        } else {
            let fraction = Seq::<char>::empty();
            let scale = s.skip(a);
            scales(scale);
            assert(s =~= whole + fraction + scale);
            assert(is_fixed(whole, fraction, scale));
        }
    }
    if exists|whole: Seq<char>, fraction: Seq<char>, scale: Seq<char>|
        s == #[trigger] (whole + fraction + scale) && is_fixed(whole, fraction, scale) {
        let (whole, fraction, scale) = choose|
            whole: Seq<char>,
            fraction: Seq<char>,
            scale: Seq<char>,
        |
            s == #[trigger] (whole + fraction + scale) && is_fixed(whole, fraction, scale);
        scales(scale);
        scale_starts(scale);
        if fraction.len() == 0 {
            assert(s =~= whole + scale);
            run_ends(whole, scale);
            assert(s.skip(whole.len() as int) =~= scale);
        } else {
            let run = fraction.drop_first();
            assert(s =~= whole + (fraction + scale));
            run_ends(whole, fraction + scale);
            assert(s[whole.len() as int] == '.');
            assert(s.skip(whole.len() as int + 1) =~= run + scale);
            run_ends(run, scale);
            assert(s.skip(whole.len() as int + 1 + run.len() as int) =~= scale);
        }
    }
}

proof fn scale_starts(s: Seq<char>)
    requires
        is_scale(s),
    ensures
        s.len() > 0 ==> s[0] == 'e' || s[0] == 'E',
{
    if s.len() > 0 {
        let (e, sign, n) = choose|e: char, sign: Seq<char>, n: Seq<char>|
            s == #[trigger] (seq![e] + sign + n) && (e == 'e' || e == 'E') && is_sign(sign)
                && is_run(n) && n.len() > 0;
        assert(s[0] == e);
    }
}

proof fn letters_of_any_case(s: Seq<char>, small: Seq<char>)
    requires
        forall|i: int| 0 <= i < small.len() ==> 'a' <= #[trigger] small[i] <= 'z',
    ensures
        is_word(s, small) <==> Seq::new(s.len(), |i: int| lower(s[i])) == small,
{
    let low = Seq::new(s.len(), |i: int| lower(s[i]));
    if is_word(s, small) {
        assert forall|i: int| 0 <= i < s.len() implies low[i] == small[i] by {
            assert(is_letter(s[i], small[i]));
        }
        assert(low =~= small);
    }
    if low == small {
        assert forall|i: int| 0 <= i < s.len() implies is_letter(#[trigger] s[i], small[i]) by {
            assert(low[i] == small[i]);
        }
    }
}

proof fn magnitudes(s: Seq<char>)
    ensures
        is_magnitude(s) <==> is_word(s, "inf"@) || is_word(s, "infinity"@) || is_word(s, "nan"@)
            || is_decimal(s),
        is_magnitude(s) ==> s.len() > 0 && s[0] != '+' && s[0] != '-',
{
    reveal_strlit("inf");
    reveal_strlit("infinity");
    reveal_strlit("nan");
    fixed_numbers(s);
    letters_of_any_case(s, "inf"@);
    letters_of_any_case(s, "infinity"@);
    letters_of_any_case(s, "nan"@);
    if is_special(s) {
        let small = Seq::new(s.len(), |i: int| lower(s[i]));
        assert(small[0] == 'i' || small[0] == 'n');
        assert(lower(s[0]) == small[0]);
    } else if is_magnitude(s) {
        digits_run(s);
        if digits(s) > 0 {
            assert(s.take(digits(s))[0] == s[0]);
        }
    }
}

/// A word is a number exactly if it is put together from a sign, digits, a point
/// with digits behind it, and an exponent, where all but the digits on one side
/// of the point can be missing; or if it is a sign, or none, and one of the words
/// for infinity and for what is not a number.
pub proof fn numbers_are_put_together(w: Seq<char>)
    ensures
        is_number(w) <==> exists|sign: Seq<char>, m: Seq<char>|
            w == #[trigger] (sign + m) && is_sign(sign) && is_magnitude(m),
{
    if is_number(w) {
        let sign = unsigned_parts(w);
        magnitudes(unsigned(w));
        assert(w == sign + unsigned(w) && is_sign(sign) && is_magnitude(unsigned(w)));
    }
    if exists|sign: Seq<char>, m: Seq<char>|
        w == #[trigger] (sign + m) && is_sign(sign) && is_magnitude(m) {
        let (sign, m) = choose|sign: Seq<char>, m: Seq<char>|
            w == #[trigger] (sign + m) && is_sign(sign) && is_magnitude(m);
        magnitudes(m);
        sign_is_passed(sign, m);
    }
}

/// Digits, a point and digits are a number, however many digits there are on
/// either side, and so they are with a sign and an exponent.
pub proof fn every_decimal_is_a_number(
    sign: Seq<char>,
    whole: Seq<char>,
    fraction: Seq<char>,
    power_sign: Seq<char>,
    power: Seq<char>,
)
    requires
        is_sign(sign),
        is_run(whole),
        is_run(fraction),
        whole.len() + fraction.len() > 0,
        is_sign(power_sign),
        is_run(power),
        power.len() > 0,
    ensures
        whole.len() > 0 ==> is_number(sign + whole),
        is_number(sign + (whole + seq!['.'] + fraction)),
        is_number(sign + (whole + seq!['.'] + fraction + (seq!['e'] + power_sign + power))),
{
    let none = Seq::<char>::empty();
    let point = seq!['.'] + fraction;
    let scale = seq!['e'] + power_sign + power;
    assert(is_scale(scale));
    assert(point.drop_first() =~= fraction);
    assert(whole =~= whole + none + none);
    assert(is_fixed(whole, point, none) && is_fixed(whole, point, scale));
    assert(whole + seq!['.'] + fraction =~= whole + point + none);
    assert(whole + seq!['.'] + fraction + scale =~= whole + point + scale);
    if whole.len() > 0 {
        assert(is_fixed(whole, none, none));
        assert(is_magnitude(whole));
        numbers_are_put_together(sign + whole);
    }
    let plain = whole + seq!['.'] + fraction;
    assert(is_magnitude(plain));
    numbers_are_put_together(sign + plain);
    assert(is_magnitude(plain + scale));
    numbers_are_put_together(sign + (plain + scale));
}

// ---------------------------------------------------------------------------
// Words
// ---------------------------------------------------------------------------

/// The characters of white space, by their numbers.
pub open spec fn white_space() -> Seq<int> {
    seq![
        0x09, 0x0A, 0x0B, 0x0C, 0x0D, 0x20, 0x85, 0xA0, 0x1680, 0x2000, 0x2001, 0x2002, 0x2003,
        0x2004, 0x2005, 0x2006, 0x2007, 0x2008, 0x2009, 0x200A, 0x2028, 0x2029, 0x202F, 0x205F,
        0x3000,
    ]
}

/// A blank is one of the characters of white space.
pub proof fn blanks_are_white_space(c: char)
    ensures
        is_blank(c) <==> white_space().contains(c as int),
{
    let n = c as int;
    let all = white_space();
    if is_blank(c) {
        if 0x09 <= n <= 0x0D {
            assert(all[n - 0x09] == n);
        } else if 0x2000 <= n <= 0x200A {
            assert(all[n - 0x2000 + 9] == n);
        } else {
            assert(all[5] == 0x20 && all[6] == 0x85 && all[7] == 0xA0 && all[8] == 0x1680);
            assert(all[20] == 0x2028 && all[21] == 0x2029 && all[22] == 0x202F);
            assert(all[23] == 0x205F && all[24] == 0x3000);
        }
    }
    if all.contains(n) {
        let i = choose|i: int| 0 <= i < all.len() && all[i] == n;
        assert(all.len() == 25);
    }
}

/// A word: not empty, and without blanks.
pub open spec fn is_plain(w: Seq<char>) -> bool {
    w.len() > 0 && forall|i: int|
        0 <= i < w.len() ==> !white_space().contains(#[trigger] w[i] as int)
}

/// Starts with a blank, or is empty.
pub open spec fn starts_blank(s: Seq<char>) -> bool {
    s.len() > 0 ==> white_space().contains(s[0] as int)
}

proof fn word_ends(w: Seq<char>, rest: Seq<char>)
    requires
        forall|i: int| 0 <= i < w.len() ==> !is_blank(#[trigger] w[i]),
        rest.len() > 0 ==> is_blank(rest[0]),
    ensures
        word_end(w + rest) == w.len(),
    decreases w.len(),
{
    let s = w + rest;
    if w.len() > 0 {
        let t = w.drop_first();
        assert(s.drop_first() =~= t + rest);
        assert(s[0] == w[0]);
        assert forall|i: int| 0 <= i < t.len() implies !is_blank(#[trigger] t[i]) by {
            assert(t[i] == w[i + 1]);
        }
        word_ends(t, rest);
    } else {
        assert(s =~= rest);
    }
}

/// A line splits into its words: one that stands at the front, up to the first
/// blank or the end of the line, is the first of them.
pub proof fn words_are_split_off(w: Seq<char>, rest: Seq<char>)
    requires
        is_plain(w),
        starts_blank(rest),
    ensures
        words(w + rest) == seq![w] + words(rest),
{
    let s = w + rest;
    assert forall|i: int| 0 <= i < w.len() implies !is_blank(#[trigger] w[i]) by {
        blanks_are_white_space(w[i]);
    }
    if rest.len() > 0 {
        blanks_are_white_space(rest[0]);
    }
    word_ends(w, rest);
    assert(s[0] == w[0]);
    assert(s.take(w.len() as int) =~= w);
    assert(s.skip(w.len() as int) =~= rest);
}

/// Blanks are passed over, and nothing has no words.
pub proof fn blanks_are_passed_over(c: char, rest: Seq<char>)
    requires
        white_space().contains(c as int),
    ensures
        words(seq![c] + rest) == words(rest),
        words(Seq::empty()).len() == 0,
{
    let s = seq![c] + rest;
    blanks_are_white_space(c);
    assert(s.drop_first() =~= rest);
}

// ---------------------------------------------------------------------------
// Lines
// ---------------------------------------------------------------------------

/// A text on one line.
pub open spec fn is_one_line(l: Seq<char>) -> bool {
    !l.contains('\n')
}

/// Whole lines: each ends in a new line.
pub open spec fn is_whole(text: Seq<char>) -> bool {
    text.len() > 0 ==> text.last() == '\n'
}

proof fn line_ends(l: Seq<char>, rest: Seq<char>)
    requires
        is_one_line(l),
        rest.len() > 0 ==> rest[0] == '\n',
    ensures
        line_end(l + rest) == l.len(),
    decreases l.len(),
{
    let s = l + rest;
    if l.len() > 0 {
        let t = l.drop_first();
        assert(s.drop_first() =~= t + rest);
        assert(s[0] == l[0]);
        assert(l.contains(l[0]));
        assert(is_one_line(t)) by {
            if t.contains('\n') {
                let i = choose|i: int| 0 <= i < t.len() && t[i] == '\n';
                assert(l[i + 1] == '\n');
            }
        }
        line_ends(t, rest);
    } else {
        assert(s =~= rest);
    }
}

proof fn line_end_is_first(text: Seq<char>)
    ensures
        0 <= line_end(text) <= text.len(),
        is_one_line(text.take(line_end(text))),
        line_end(text) < text.len() ==> text[line_end(text)] == '\n',
    decreases text.len(),
{
    if text.len() > 0 && text[0] != '\n' {
        let t = text.drop_first();
        line_end_is_first(t);
        let front = text.take(line_end(text));
        if front.contains('\n') {
            let i = choose|i: int| 0 <= i < front.len() && front[i] == '\n';
            assert(t.take(line_end(t))[i - 1] == '\n');
        }
        if line_end(text) < text.len() {
            assert(t[line_end(t)] == text[line_end(text)]);
        }
    }
}

/// A line at the front of a text is its first line, whether it ends in a new line
/// or in a carriage return and a new line.  The last line needs no end, and then
/// keeps a carriage return.
pub proof fn lines_are_split_off(l: Seq<char>, rest: Seq<char>)
    requires
        is_one_line(l),
    ensures
        (l.len() > 0 ==> l.last() != '\r') ==> lines(l + seq!['\n'] + rest) == seq![l] + lines(
            rest,
        ),
        lines(l + seq!['\r', '\n'] + rest) == seq![l] + lines(rest),
        l.len() > 0 ==> lines(l) == seq![l],
        lines(Seq::empty()).len() == 0,
{
    let s = l + seq!['\n'] + rest;
    assert(s =~= l + (seq!['\n'] + rest));
    line_ends(l, seq!['\n'] + rest);
    assert(s.take(l.len() as int) =~= l);
    assert(s.skip(l.len() as int + 1) =~= rest);
    let m = l.push('\r');
    let t = l + seq!['\r', '\n'] + rest;
    assert(is_one_line(m)) by {
        if m.contains('\n') {
            let i = choose|i: int| 0 <= i < m.len() && m[i] == '\n';
            assert(l[i] == '\n');
        }
    }
    assert(t =~= m + (seq!['\n'] + rest));
    line_ends(m, seq!['\n'] + rest);
    assert(t.take(m.len() as int) =~= m);
    assert(m.drop_last() =~= l);
    assert(without_return(m) == l);
    assert(t.skip(m.len() as int + 1) =~= rest);
    line_ends(l, Seq::empty());
    assert(l + Seq::<char>::empty() =~= l);
}

/// One more line behind whole lines.
proof fn lines_grow(text: Seq<char>, l: Seq<char>, end: Seq<char>)
    requires
        is_whole(text),
        is_one_line(l),
        end == seq!['\n'] && l.len() > 0 ==> l.last() != '\r',
        end == seq!['\n'] || end == seq!['\r', '\n'] || (end.len() == 0 && l.len() > 0),
    ensures
        lines(text + (l + end)) == lines(text).push(l),
    decreases text.len(),
{
    let s = text + (l + end);
    if text.len() == 0 {
        assert(s =~= l + end);
        assert(l + end =~= l + end + Seq::<char>::empty());
        lines_are_split_off(l, Seq::empty());
        assert(l + Seq::<char>::empty() =~= l);
        assert(seq![l] + Seq::<Seq<char>>::empty() =~= seq![l]);
        assert(lines(text).push(l) =~= seq![l]);
    } else {
        let k = line_end(text);
        line_end_is_first(text);
        if k == text.len() {
            assert(text.take(k) =~= text);
            assert(text[text.len() - 1] == '\n');
            assert(text.contains('\n'));
        }
        let rest = text.skip(k + 1);
        let front = text.take(k);
        assert(is_whole(rest)) by {
            if rest.len() > 0 {
                assert(rest.last() == text.last());
            }
        }
        let behind = text.skip(k) + (l + end);
        assert(s =~= front + behind);
        assert(behind[0] == text[k]);
        line_ends(front, behind);
        assert(s.take(k) =~= front);
        assert(s.skip(k + 1) =~= rest + (l + end));
        lines_grow(rest, l, end);
        assert(lines(s) =~= lines(text).push(l));
    }
}

// ---------------------------------------------------------------------------
// Models
// ---------------------------------------------------------------------------

/// The text is that of a model.
pub open spec fn is_model(text: Seq<char>) -> bool {
    is_model_text(text) && names_are_known(text)
}

/// The words of the operations in a text.
pub open spec fn operations_of(text: Seq<char>) -> Seq<Seq<Seq<char>>> {
    operations(lines(text))
}

/// A line behind whole lines adds the operation that its words stand for, unless
/// it is empty or a comment.  How the line ends makes no difference, and at the
/// end of the text it need not end at all.
pub proof fn a_line_adds_an_operation(text: Seq<char>, l: Seq<char>, end: Seq<char>)
    requires
        is_whole(text),
        is_one_line(l),
        end == seq!['\n'] && l.len() > 0 ==> l.last() != '\r',
        end == seq!['\n'] || end == seq!['\r', '\n'] || (end.len() == 0 && l.len() > 0),
    ensures
        operations_of(text + (l + end)) == if l.len() == 0 || l[0] == '#' {
            operations_of(text)
        } else {
            operations_of(text).push(words(l))
        },
        operations_of(Seq::empty()).len() == 0,
{
    lines_grow(text, l, end);
    assert(lines(text).push(l).drop_last() =~= lines(text));
    assert(lines(text).push(l).last() == l);
}

/// The names of the operations that take one argument.
pub open spec fn unary_names() -> Seq<Seq<char>> {
    seq![
        "neg"@, "abs"@, "sqrt"@, "square"@, "floor"@, "ceil"@, "round"@, "sin"@, "cos"@, "tan"@,
        "asin"@, "acos"@, "atan"@, "exp"@, "ln"@, "not"@, "rand"@,
    ]
}

/// The names of the operations that take two arguments.
pub open spec fn binary_names() -> Seq<Seq<char>> {
    seq![
        "add"@, "sub"@, "mul"@, "div"@, "atan2"@, "min"@, "max"@, "compare"@, "mod"@, "and"@,
        "or"@, "mix"@,
    ]
}

/// The name is given to an operation of the text.
pub open spec fn is_given(text: Seq<char>, name: Seq<char>) -> bool {
    exists|i: int|
        0 <= i < operations_of(text).len() && (#[trigger] operations_of(text)[i])[0] == name
}

/// The words of an operation that can follow a text: a name, and then an axis; a
/// constant with its number; or an operation with as many arguments as it takes,
/// each the name of an earlier one.  Further words do no harm.
pub open spec fn can_follow(text: Seq<char>, op: Seq<Seq<char>>) -> bool {
    op.len() >= 2 && if op[1] == "var-x"@ || op[1] == "var-y"@ || op[1] == "var-z"@ {
        true
    } else if op[1] == "const"@ {
        op.len() >= 3 && is_number(op[2])
    } else if unary_names().contains(op[1]) {
        op.len() >= 3 && is_given(text, op[2])
    } else if binary_names().contains(op[1]) {
        op.len() >= 4 && is_given(text, op[2]) && is_given(text, op[3])
    } else {
        false
    }
}

proof fn arities(op: Seq<char>)
    ensures
        arity(op) == if op == "const"@ || op == "var-x"@ || op == "var-y"@ || op == "var-z"@ {
            Some(0int)
        } else if unary_names().contains(op) {
            Some(1)
        } else if binary_names().contains(op) {
            Some(2)
        } else {
            None
        },
        op == "var-x"@ || op == "var-y"@ || op == "var-z"@ ==> op != "const"@,
{
    let one = unary_names();
    let two = binary_names();
    reveal_strlit("const");
    reveal_strlit("var-x");
    reveal_strlit("var-y");
    reveal_strlit("var-z");
    assert("const"@[0] == 'c' && "var-x"@[0] == 'v' && "var-y"@[0] == 'v' && "var-z"@[0] == 'v');
    assert(one.contains(one[0]) && one.contains(one[1]) && one.contains(one[2]));
    assert(one.contains(one[3]) && one.contains(one[4]) && one.contains(one[5]));
    assert(one.contains(one[6]) && one.contains(one[7]) && one.contains(one[8]));
    assert(one.contains(one[9]) && one.contains(one[10]) && one.contains(one[11]));
    assert(one.contains(one[12]) && one.contains(one[13]) && one.contains(one[14]));
    assert(one.contains(one[15]) && one.contains(one[16]));
    assert(two.contains(two[0]) && two.contains(two[1]) && two.contains(two[2]));
    assert(two.contains(two[3]) && two.contains(two[4]) && two.contains(two[5]));
    assert(two.contains(two[6]) && two.contains(two[7]) && two.contains(two[8]));
    assert(two.contains(two[9]) && two.contains(two[10]) && two.contains(two[11]));
}

/// What is known of an operation depends on the earlier ones only.
proof fn earlier_operations_tell(ops: Seq<Seq<Seq<char>>>, op: Seq<Seq<char>>, i: int)
    requires
        0 <= i < ops.len(),
    ensures
        is_known(ops.push(op), i) == is_known(ops, i),
{
    let more = ops.push(op);
    assert(more[i] == ops[i]);
    assert forall|name: Seq<char>| #[trigger] is_named(more, i, name) == is_named(ops, i, name) by {
        if is_named(more, i, name) {
            let j = choose|j: int| 0 <= j < i && (#[trigger] more[j])[0] == name;
            assert(ops[j] == more[j]);
        }
        if is_named(ops, i, name) {
            let j = choose|j: int| 0 <= j < i && (#[trigger] ops[j])[0] == name;
            assert(ops[j] == more[j]);
        }
    }
    if is_known(more, i) {
        assert forall|k: int| 2 <= k < 2 + arity(ops[i][1])->0 implies is_named(
            ops,
            i,
            #[trigger] ops[i][k],
        ) by {
            assert(is_named(more, i, more[i][k]));
        }
    }
    if is_known(ops, i) {
        assert forall|k: int| 2 <= k < 2 + arity(more[i][1])->0 implies is_named(
            more,
            i,
            #[trigger] more[i][k],
        ) by {
            assert(is_named(ops, i, ops[i][k]));
        }
    }
}

/// The last operation is complete and known exactly if it can follow the others.
proof fn last_operation_follows(text: Seq<char>, op: Seq<Seq<char>>)
    ensures
        can_follow(text, op) <==> is_complete(op) && is_known(
            operations_of(text).push(op),
            operations_of(text).len() as int,
        ),
{
    let ops = operations_of(text);
    let n = ops.len() as int;
    let more = ops.push(op);
    assert(more[n] == op);
    assert forall|name: Seq<char>| #[trigger] is_named(more, n, name) == is_given(text, name) by {
        if is_named(more, n, name) {
            let j = choose|j: int| 0 <= j < n && (#[trigger] more[j])[0] == name;
            assert(ops[j] == more[j]);
        }
        if is_given(text, name) {
            let j = choose|j: int| 0 <= j < ops.len() && (#[trigger] ops[j])[0] == name;
            assert(ops[j] == more[j]);
        }
    }
    if op.len() >= 2 {
        arities(op[1]);
        if is_known(more, n) && arity(op[1])->0 >= 1 {
            assert(is_named(more, n, more[n][2]));
            if arity(op[1])->0 == 2 {
                assert(is_named(more, n, more[n][3]));
            }
        }
    }
}

/// Whether a text is that of a model is told line by line.  Nothing is none.  An
/// empty line or a comment changes nothing.  With any other line, whole lines are
/// a model exactly if the lines before it are, or hold no operation yet, and the
/// words of the line can follow them.
pub proof fn models_are_told_line_by_line(text: Seq<char>, l: Seq<char>, end: Seq<char>)
    requires
        is_whole(text),
        is_one_line(l),
        end == seq!['\n'] && l.len() > 0 ==> l.last() != '\r',
        end == seq!['\n'] || end == seq!['\r', '\n'] || (end.len() == 0 && l.len() > 0),
    ensures
        !is_model(Seq::empty()),
        is_model(text + (l + end)) == if l.len() == 0 || l[0] == '#' {
            is_model(text)
        } else {
            (is_model(text) || operations_of(text).len() == 0) && can_follow(text, words(l))
        },
{
    let op = words(l);
    let ops = operations_of(text);
    let n = ops.len() as int;
    let longer = text + (l + end);
    a_line_adds_an_operation(text, l, end);
    if !(l.len() == 0 || l[0] == '#') {
        let more = operations_of(longer);
        assert(more == ops.push(op));
        last_operation_follows(text, op);
        assert forall|i: int| 0 <= i < n implies is_known(more, i) == #[trigger] is_known(
            ops,
            i,
        ) by {
            earlier_operations_tell(ops, op, i);
        }
        assert(more[n] == op);
        if is_model(longer) {
            assert(is_complete(more[n]) && is_known(more, n));
            assert forall|i: int| 0 <= i < n implies is_complete(#[trigger] ops[i]) by {
                assert(more[i] == ops[i]);
            }
            assert forall|i: int| 0 <= i < n implies #[trigger] is_known(ops, i) by {
                assert(is_known(more, i));
            }
        }
        if (is_model(text) || n == 0) && can_follow(text, op) {
            assert forall|i: int| 0 <= i < more.len() implies is_complete(#[trigger] more[i]) by {
                if i < n {
                    assert(more[i] == ops[i]);
                }
            }
            assert forall|i: int| 0 <= i < more.len() implies #[trigger] is_known(more, i) by {
                if i < n {
                    assert(is_known(ops, i));
                }
            }
        }
    }
}

} // verus!
