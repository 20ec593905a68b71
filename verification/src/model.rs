//! Models as text: one operation per line, with a name, an operation and the
//! names of its arguments.

use crate::context::{context_export, context_from_text, reads_as, reads_back, tree_expr};
use fidget_core::context::Tree;
use vstd::prelude::*;
use vstd::string::StrSliceExecFns;

verus! {

// ---------------------------------------------------------------------------
// Lines and words
// ---------------------------------------------------------------------------

/// A character of white space.
pub open spec fn is_blank(c: char) -> bool {
    let n = c as u32;
    ||| 0x09 <= n <= 0x0D
    ||| n == 0x20
    ||| n == 0x85
    ||| n == 0xA0
    ||| n == 0x1680
    ||| 0x2000 <= n <= 0x200A
    ||| n == 0x2028
    ||| n == 0x2029
    ||| n == 0x202F
    ||| n == 0x205F
    ||| n == 0x3000
}

/// The position of the first new line, or the length if there is none.
pub open spec fn line_end(text: Seq<char>) -> int
    decreases text.len(),
{
    if text.len() == 0 || text[0] == '\n' {
        0
    } else {
        1 + line_end(text.drop_first())
    }
}

/// A line without the carriage return at its end.
pub open spec fn without_return(line: Seq<char>) -> Seq<char> {
    if line.len() > 0 && line.last() == '\r' {
        line.drop_last()
    } else {
        line
    }
}

/// The lines of a text, without what ends them.  At the end of the text, a line
/// needs no new line.
pub open spec fn lines(text: Seq<char>) -> Seq<Seq<char>>
    decreases text.len(),
{
    if text.len() == 0 {
        Seq::empty()
    } else {
        let k = line_end(text);
        if 0 <= k < text.len() {
            seq![without_return(text.take(k))] + lines(text.skip(k + 1))
        } else {
            seq![text]
        }
    }
}

/// The position of the first blank, or the length if there is none.
pub open spec fn word_end(line: Seq<char>) -> int
    decreases line.len(),
{
    if line.len() == 0 || is_blank(line[0]) {
        0
    } else {
        1 + word_end(line.drop_first())
    }
}

/// The words of a line, with blanks between them.
pub open spec fn words(line: Seq<char>) -> Seq<Seq<char>>
    decreases line.len(),
{
    if line.len() == 0 {
        Seq::empty()
    } else if is_blank(line[0]) {
        words(line.drop_first())
    } else {
        let k = word_end(line);
        if 0 < k <= line.len() {
            seq![line.take(k)] + words(line.skip(k))
        } else {
            Seq::empty()
        }
    }
}

/// Neither an empty line nor a comment.
pub open spec fn is_operation(line: Seq<char>) -> bool {
    line.len() > 0 && line[0] != '#'
}

/// The words of the lines that are operations, in order.
pub open spec fn operations(lines: Seq<Seq<char>>) -> Seq<Seq<Seq<char>>>
    decreases lines.len(),
{
    if lines.len() == 0 {
        Seq::empty()
    } else if is_operation(lines.last()) {
        operations(lines.drop_last()).push(words(lines.last()))
    } else {
        operations(lines.drop_last())
    }
}

// ---------------------------------------------------------------------------
// Numbers
// ---------------------------------------------------------------------------

/// A decimal digit.
pub open spec fn is_digit(c: char) -> bool {
    '0' <= c <= '9'
}

/// The length of the run of digits that a text starts with.
pub open spec fn digits(w: Seq<char>) -> int
    decreases w.len(),
{
    if w.len() == 0 || !is_digit(w[0]) {
        0
    } else {
        1 + digits(w.drop_first())
    }
}

/// A text without the sign that it starts with.
pub open spec fn unsigned(w: Seq<char>) -> Seq<char> {
    if w.len() > 0 && (w[0] == '+' || w[0] == '-') {
        w.drop_first()
    } else {
        w
    }
}

/// Nothing, or an exponent.
pub open spec fn is_exponent(w: Seq<char>) -> bool {
    w.len() == 0 || ((w[0] == 'e' || w[0] == 'E') && ({
        let n = unsigned(w.drop_first());
        n.len() > 0 && digits(n) == n.len()
    }))
}

/// Digits with at most one point among them, and an exponent if need be.
pub open spec fn is_decimal(w: Seq<char>) -> bool {
    let a = digits(w);
    if a < w.len() && w[a] == '.' {
        let b = digits(w.skip(a + 1));
        a + b > 0 && is_exponent(w.skip(a + 1 + b))
    } else {
        a > 0 && is_exponent(w.skip(a))
    }
}

/// A letter as the small letter `small`, whether it is small or capital.
pub open spec fn is_letter(c: char, small: char) -> bool {
    c == small || (c as u32 + 0x20 == small as u32 && 'a' <= small <= 'z')
}

/// `w` is the word `small`, in letters of any case.
pub open spec fn is_word(w: Seq<char>, small: Seq<char>) -> bool {
    w.len() == small.len() && forall|i: int|
        0 <= i < w.len() ==> is_letter(#[trigger] w[i], small[i])
}

/// A number, as floating-point numbers are read.
pub open spec fn is_number(w: Seq<char>) -> bool {
    let n = unsigned(w);
    ||| is_word(n, "inf"@)
    ||| is_word(n, "infinity"@)
    ||| is_word(n, "nan"@)
    ||| is_decimal(n)
}

// ---------------------------------------------------------------------------
// Models
// ---------------------------------------------------------------------------

/// One of the operations with one argument.
pub open spec fn is_unary(op: Seq<char>) -> bool {
    ||| op == "abs"@
    ||| op == "neg"@
    ||| op == "sqrt"@
    ||| op == "square"@
    ||| op == "floor"@
    ||| op == "ceil"@
    ||| op == "round"@
    ||| op == "sin"@
    ||| op == "cos"@
    ||| op == "tan"@
    ||| op == "asin"@
    ||| op == "acos"@
    ||| op == "atan"@
    ||| op == "ln"@
    ||| op == "not"@
    ||| op == "rand"@
    ||| op == "exp"@
}

/// One of the operations with two arguments.
pub open spec fn is_binary(op: Seq<char>) -> bool {
    ||| op == "add"@
    ||| op == "mul"@
    ||| op == "min"@
    ||| op == "max"@
    ||| op == "div"@
    ||| op == "atan2"@
    ||| op == "sub"@
    ||| op == "compare"@
    ||| op == "mod"@
    ||| op == "and"@
    ||| op == "or"@
    ||| op == "mix"@
}

/// The number of arguments of an operation, or `None` if there is no such one.
pub open spec fn arity(op: Seq<char>) -> Option<int> {
    if op == "const"@ || op == "var-x"@ || op == "var-y"@ || op == "var-z"@ {
        Some(0)
    } else if is_unary(op) {
        Some(1)
    } else if is_binary(op) {
        Some(2)
    } else {
        None
    }
}

/// An operation has a name, and as many words behind it as it takes: a constant
/// has its number.
pub open spec fn is_complete(op: Seq<Seq<char>>) -> bool {
    &&& op.len() >= 2
    &&& op[1] == "const"@ ==> op.len() >= 3 && is_number(op[2])
    &&& arity(op[1]) matches Some(n) ==> op.len() >= 2 + n
}

/// `name` is the name of one of the first `i` operations.
pub open spec fn is_named(ops: Seq<Seq<Seq<char>>>, i: int, name: Seq<char>) -> bool {
    exists|j: int| 0 <= j < i && (#[trigger] ops[j])[0] == name
}

/// There is such an operation, and its arguments are earlier ones.
pub open spec fn is_known(ops: Seq<Seq<Seq<char>>>, i: int) -> bool {
    arity(ops[i][1]) matches Some(n) && forall|k: int|
        2 <= k < 2 + n ==> is_named(ops, i, #[trigger] ops[i][k])
}

/// Every operation of a text is complete.
pub open spec fn is_model_text(text: Seq<char>) -> bool {
    let ops = operations(lines(text));
    forall|i: int| 0 <= i < ops.len() ==> is_complete(#[trigger] ops[i])
}

/// There are operations, and all of them are known.
pub open spec fn names_are_known(text: Seq<char>) -> bool {
    let ops = operations(lines(text));
    ops.len() > 0 && forall|i: int| 0 <= i < ops.len() ==> #[trigger] is_known(ops, i)
}

// ---------------------------------------------------------------------------
// Reading
// ---------------------------------------------------------------------------

/// A piece of a text, from one position up to another.
#[derive(Clone, Copy, Debug)]
struct Piece {
    from: usize,
    to: usize,
}

impl Piece {
    spec fn fits(self, text: Seq<char>) -> bool {
        self.from <= self.to <= text.len()
    }

    spec fn spelled(self, text: Seq<char>) -> Seq<char> {
        text.subrange(self.from as int, self.to as int)
    }
}

/// The pieces as text.
spec fn spelled(text: Seq<char>, pieces: Seq<Piece>) -> Seq<Seq<char>> {
    Seq::new(pieces.len(), |i: int| pieces[i].spelled(text))
}

/// All of the pieces are pieces of the text.
spec fn fit(text: Seq<char>, pieces: Seq<Piece>) -> bool {
    forall|i: int| 0 <= i < pieces.len() ==> (#[trigger] pieces[i]).fits(text)
}

/// The words of operations, as text.
spec fn all_spelled(text: Seq<char>, ops: Seq<Vec<Piece>>) -> Seq<Seq<Seq<char>>> {
    Seq::new(ops.len(), |i: int| spelled(text, ops[i]@))
}

/// All of the words are pieces of the text.
spec fn all_fit(text: Seq<char>, ops: Seq<Vec<Piece>>) -> bool {
    forall|i: int| 0 <= i < ops.len() ==> fit(text, (#[trigger] ops[i])@)
}

/// The characters of a text.
fn characters(text: &str) -> (chars: Vec<char>)
    ensures
        chars@ == text@,
{
    let mut chars: Vec<char> = Vec::new();
    for c in it: text.chars()
        invariant
            chars@ == it.seq().take(it.index()),
            it.seq() == text@,
    {
        chars.push(c);
    }
    chars
}

fn blank(c: char) -> (b: bool)
    ensures
        b == is_blank(c),
{
    let n: u32 = c as u32;
    (0x09 <= n && n <= 0x0D) || n == 0x20 || n == 0x85 || n == 0xA0 || n == 0x1680 || (0x2000 <= n
        && n <= 0x200A) || n == 0x2028 || n == 0x2029 || n == 0x202F || n == 0x205F || n == 0x3000
}

/// Splits a line into words.
fn split_words(text: &Vec<char>, line: Piece) -> (pieces: Vec<Piece>)
    requires
        line.fits(text@),
    ensures
        fit(text@, pieces@),
        spelled(text@, pieces@) == words(line.spelled(text@)),
{
    let ghost t = text@;
    let to: usize = line.to;
    let mut pieces: Vec<Piece> = Vec::new();
    let mut i: usize = line.from;
    assert(spelled(t, pieces@) + words(line.spelled(t)) =~= words(line.spelled(t)));
    while i < to
        invariant
            t == text@,
            line.from <= i <= to == line.to,
            line.fits(t),
            fit(t, pieces@),
            spelled(t, pieces@) + words(t.subrange(i as int, to as int)) == words(line.spelled(t)),
        decreases to - i,
    {
        let ghost rest = t.subrange(i as int, to as int);
        if blank(text[i]) {
            assert(rest.drop_first() =~= t.subrange(i + 1, to as int));
            i += 1;
        } else {
            let mut k: usize = i;
            while k < to && !blank(text[k])
                invariant
                    t == text@,
                    i <= k <= to <= t.len(),
                    word_end(t.subrange(i as int, to as int)) == k - i + word_end(
                        t.subrange(k as int, to as int),
                    ),
                decreases to - k,
            {
                assert(t.subrange(k as int, to as int).drop_first() =~= t.subrange(
                    k + 1,
                    to as int,
                ));
                k += 1;
            }
            let word = Piece { from: i, to: k };
            let ghost before = pieces@;
            pieces.push(word);
            proof {
                assert(word_end(rest) == k - i);
                assert(rest.take(k - i) =~= word.spelled(t));
                assert(rest.skip(k - i) =~= t.subrange(k as int, to as int));
                assert(k > i) by {
                    if k == i {
                        assert(is_blank(rest[0]));
                    }
                }
                assert(spelled(t, pieces@) =~= spelled(t, before).push(word.spelled(t)));
                assert(spelled(t, pieces@) + words(t.subrange(k as int, to as int)) =~= spelled(
                    t,
                    before,
                ) + words(rest));
            }
            i = k;
        }
    }
    assert(t.subrange(i as int, to as int) =~= Seq::<char>::empty());
    assert(spelled(t, pieces@) + Seq::<Seq<char>>::empty() =~= spelled(t, pieces@));
    pieces
}

/// Splits a text into the words of its operations.
fn split_operations(text: &Vec<char>) -> (ops: Vec<Vec<Piece>>)
    ensures
        all_fit(text@, ops@),
        all_spelled(text@, ops@) == operations(lines(text@)),
{
    let ghost t = text@;
    let n: usize = text.len();
    let mut ops: Vec<Vec<Piece>> = Vec::new();
    let ghost mut seen: Seq<Seq<char>> = Seq::empty();
    let mut start: usize = 0;
    assert(t.skip(0) =~= t);
    assert(seen + lines(t) =~= lines(t));
    assert(all_spelled(t, ops@) =~= operations(seen));
    while start < n
        invariant
            t == text@,
            start <= n == t.len(),
            seen + lines(t.skip(start as int)) == lines(t),
            all_fit(t, ops@),
            all_spelled(t, ops@) == operations(seen),
        decreases n - start,
    {
        let ghost rest = t.skip(start as int);
        let mut k: usize = start;
        while k < n && text[k] != '\n'
            invariant
                t == text@,
                start <= k <= n == t.len(),
                rest == t.skip(start as int),
                line_end(rest) == k - start + line_end(t.skip(k as int)),
            decreases n - k,
        {
            assert(t.skip(k as int).drop_first() =~= t.skip(k + 1));
            k += 1;
        }
        proof {
            assert(k < n ==> t.skip(k as int)[0] == '\n');
            assert(line_end(rest) == k - start);
            assert(rest.take(k - start) =~= t.subrange(start as int, k as int));
        }
        let line = if k < n && k > start && text[k - 1] == '\r' {
            Piece { from: start, to: k - 1 }
        } else {
            Piece { from: start, to: k }
        };
        let ghost spelled_line = line.spelled(t);
        let ghost next = if k < n {
            k + 1
        } else {
            k as int
        };
        proof {
            let raw = rest.take(k - start);
            if k < n {
                assert(without_return(raw) =~= spelled_line);
                assert(rest.skip(k - start + 1) =~= t.skip(k + 1));
                assert(lines(rest) == seq![spelled_line] + lines(t.skip(next)));
            } else {
                assert(rest =~= spelled_line);
                assert(t.skip(next) =~= Seq::<char>::empty());
                assert(lines(rest) =~= seq![spelled_line] + lines(t.skip(next)));
            }
            assert(seen.push(spelled_line) + lines(t.skip(next)) =~= seen + lines(rest));
            assert(seen.push(spelled_line).drop_last() =~= seen);
            seen = seen.push(spelled_line);
        }
        if line.from < line.to && text[line.from] != '#' {
            let ghost before = ops@;
            let op = split_words(text, line);
            ops.push(op);
            assert(all_spelled(t, ops@) =~= all_spelled(t, before).push(spelled(t, op@)));
        }
        start = if k < n {
            k + 1
        } else {
            k
        };
    }
    assert(t.skip(start as int) =~= Seq::<char>::empty());
    assert(seen + Seq::<Seq<char>>::empty() =~= seen);
    ops
}

/// Checks whether a word is spelled in this way.
fn is_spelled(text: &Vec<char>, w: Piece, spelling: &str) -> (same: bool)
    requires
        w.fits(text@),
    ensures
        same == (w.spelled(text@) == spelling@),
{
    let n: usize = spelling.unicode_len();
    if w.to - w.from != n {
        return false;
    }
    let mut i: usize = 0;
    while i < n
        invariant
            w.fits(text@),
            i <= n == spelling@.len(),
            w.to - w.from == n,
            forall|k: int| 0 <= k < i ==> #[trigger] w.spelled(text@)[k] == spelling@[k],
        decreases n - i,
    {
        if text[w.from + i] != spelling.get_char(i) {
            assert(w.spelled(text@)[i as int] != spelling@[i as int]);
            return false;
        }
        i += 1;
    }
    assert(w.spelled(text@) =~= spelling@);
    true
}

/// Finds the end of the run of digits at the start of a word.
fn skip_digits(text: &Vec<char>, w: Piece) -> (end: usize)
    requires
        w.fits(text@),
    ensures
        w.from <= end <= w.to,
        end == w.from + digits(w.spelled(text@)),
{
    let ghost t = text@;
    let mut k: usize = w.from;
    while k < w.to && '0' <= text[k] && text[k] <= '9'
        invariant
            t == text@,
            w.fits(t),
            w.from <= k <= w.to,
            digits(w.spelled(t)) == k - w.from + digits(t.subrange(k as int, w.to as int)),
        decreases w.to - k,
    {
        assert(t.subrange(k as int, w.to as int).drop_first() =~= t.subrange(k + 1, w.to as int));
        k += 1;
    }
    k
}

/// Passes over a sign.
fn skip_sign(text: &Vec<char>, w: Piece) -> (rest: Piece)
    requires
        w.fits(text@),
    ensures
        rest.fits(text@),
        rest.spelled(text@) == unsigned(w.spelled(text@)),
{
    if w.from < w.to && (text[w.from] == '+' || text[w.from] == '-') {
        let rest = Piece { from: w.from + 1, to: w.to };
        assert(rest.spelled(text@) =~= w.spelled(text@).drop_first());
        rest
    } else {
        w
    }
}

/// Checks for an exponent, or nothing.
fn exponent(text: &Vec<char>, w: Piece) -> (b: bool)
    requires
        w.fits(text@),
    ensures
        b == is_exponent(w.spelled(text@)),
{
    if w.from == w.to {
        return true;
    }
    if text[w.from] != 'e' && text[w.from] != 'E' {
        return false;
    }
    let rest = Piece { from: w.from + 1, to: w.to };
    assert(rest.spelled(text@) =~= w.spelled(text@).drop_first());
    let n = skip_sign(text, rest);
    n.from < n.to && skip_digits(text, n) == n.to
}

/// Checks for digits, with a point and an exponent if need be.
fn decimal_number(text: &Vec<char>, w: Piece) -> (b: bool)
    requires
        w.fits(text@),
    ensures
        b == is_decimal(w.spelled(text@)),
{
    let ghost s = w.spelled(text@);
    let a: usize = skip_digits(text, w);
    if a < w.to && text[a] == '.' {
        let fraction = Piece { from: a + 1, to: w.to };
        let b: usize = skip_digits(text, fraction);
        let rest = Piece { from: b, to: w.to };
        proof {
            assert(s[a - w.from] == '.');
            assert(fraction.spelled(text@) =~= s.skip(a - w.from + 1));
            assert(rest.spelled(text@) =~= s.skip(b - w.from));
        }
        (a > w.from || b > a + 1) && exponent(text, rest)
    } else {
        let rest = Piece { from: a, to: w.to };
        proof {
            assert(rest.spelled(text@) =~= s.skip(a - w.from));
            assert(a < w.to ==> s[a - w.from] == text@[a as int]);
        }
        a > w.from && exponent(text, rest)
    }
}

/// Checks for a word in letters of any case.
fn is_word_of(text: &Vec<char>, w: Piece, small: &str) -> (b: bool)
    requires
        w.fits(text@),
    ensures
        b == is_word(w.spelled(text@), small@),
{
    let ghost s = w.spelled(text@);
    let n: usize = small.unicode_len();
    if w.to - w.from != n {
        return false;
    }
    let mut i: usize = 0;
    while i < n
        invariant
            w.fits(text@),
            s == w.spelled(text@),
            i <= n == small@.len(),
            w.to - w.from == n,
            forall|k: int| 0 <= k < i ==> is_letter(#[trigger] s[k], small@[k]),
        decreases n - i,
    {
        let c = text[w.from + i];
        let l = small.get_char(i);
        assert(s[i as int] == c);
        let capital = 'a' <= l && l <= 'z' && c as u32 == l as u32 - 0x20;
        if c != l && !capital {
            assert(!is_letter(s[i as int], small@[i as int]));
            return false;
        }
        i += 1;
    }
    true
}

/// Checks for a number.
fn number(text: &Vec<char>, w: Piece) -> (b: bool)
    requires
        w.fits(text@),
    ensures
        b == is_number(w.spelled(text@)),
{
    let n = skip_sign(text, w);
    is_word_of(text, n, "inf") || is_word_of(text, n, "infinity") || is_word_of(text, n, "nan")
        || decimal_number(text, n)
}

/// Returns the number of arguments of an operation.
fn arity_of(text: &Vec<char>, w: Piece) -> (n: Option<usize>)
    requires
        w.fits(text@),
    ensures
        match arity(w.spelled(text@)) {
            Some(k) => n matches Some(m) && m == k,
            None => n is None,
        },
{
    if is_spelled(text, w, "const") || is_spelled(text, w, "var-x") || is_spelled(text, w, "var-y")
        || is_spelled(text, w, "var-z") {
        Some(0)
    } else if is_spelled(text, w, "abs") || is_spelled(text, w, "neg")
        || is_spelled(text, w, "sqrt") || is_spelled(text, w, "square")
        || is_spelled(text, w, "floor") || is_spelled(text, w, "ceil")
        || is_spelled(text, w, "round") || is_spelled(text, w, "sin")
        || is_spelled(text, w, "cos") || is_spelled(text, w, "tan")
        || is_spelled(text, w, "asin") || is_spelled(text, w, "acos")
        || is_spelled(text, w, "atan") || is_spelled(text, w, "ln") || is_spelled(text, w, "not")
        || is_spelled(text, w, "rand") || is_spelled(text, w, "exp") {
        Some(1)
    } else if is_spelled(text, w, "add") || is_spelled(text, w, "mul")
        || is_spelled(text, w, "min") || is_spelled(text, w, "max") || is_spelled(text, w, "div")
        || is_spelled(text, w, "atan2") || is_spelled(text, w, "sub")
        || is_spelled(text, w, "compare") || is_spelled(text, w, "mod")
        || is_spelled(text, w, "and") || is_spelled(text, w, "or") || is_spelled(text, w, "mix") {
        Some(2)
    } else {
        None
    }
}

/// Checks whether an operation is complete.
fn complete(text: &Vec<char>, op: &Vec<Piece>) -> (b: bool)
    requires
        fit(text@, op@),
    ensures
        b == is_complete(spelled(text@, op@)),
{
    let ghost s = spelled(text@, op@);
    if op.len() < 2 {
        return false;
    }
    assert(op@[1].fits(text@));
    assert(s[1] == op@[1].spelled(text@));
    if is_spelled(text, op[1], "const") {
        if op.len() < 3 {
            return false;
        }
        assert(op@[2].fits(text@));
        assert(s[2] == op@[2].spelled(text@));
        if !number(text, op[2]) {
            return false;
        }
    }
    match arity_of(text, op[1]) {
        Some(n) => op.len() >= 2 + n,
        None => true,
    }
}

/// Checks whether every operation of a text is complete.
fn all_complete(text: &str) -> (b: bool)
    ensures
        b == is_model_text(text@),
{
    let chars = characters(text);
    let ops = split_operations(&chars);
    let ghost s = all_spelled(chars@, ops@);
    let mut i: usize = 0;
    while i < ops.len()
        invariant
            all_fit(chars@, ops@),
            s == all_spelled(chars@, ops@),
            i <= ops@.len(),
            forall|j: int| 0 <= j < i ==> is_complete(#[trigger] s[j]),
            s == operations(lines(text@)),
        decreases ops@.len() - i,
    {
        proof {
            assert(fit(chars@, ops@[i as int]@));
            assert(s[i as int] == spelled(chars@, ops@[i as int]@));
        }
        if !complete(&chars, &ops[i]) {
            return false;
        }
        i += 1;
    }
    true
}

/// Reads a model from its text: the tree of its last operation, or `None` if the
/// text is not that of a model.
pub fn load_model(text: &str) -> (tree: Option<Tree>)
    ensures
        tree is Some <==> is_model_text(text@) && names_are_known(text@),
        tree matches Some(t) ==> reads_as(text@, tree_expr(t)) && reads_back(t),
{
    if !all_complete(text) {
        return None;
    }
    match context_from_text(text) {
        Some((ctx, root)) => Some(context_export(&ctx, root)),
        None => None,
    }
}

} // verus!
