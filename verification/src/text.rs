//! Character-level helpers shared by the filter and command parsers:
//! ASCII-whitespace classification, decimal-literal parsing, lower-case
//! folding, and splitting a line into whitespace-separated tokens.
use vstd::prelude::*;

verus! {

/// The characters that `str::split_ascii_whitespace` splits on.
pub open spec fn is_ascii_ws(c: char) -> bool {
    c == ' ' || c == '\t' || c == '\n' || c == '\u{c}' || c == '\r'
}

pub fn is_ws_char(c: char) -> (r: bool)
    ensures
        r == is_ascii_ws(c),
{
    c == ' ' || c == '\t' || c == '\n' || c == '\u{c}' || c == '\r'
}

pub open spec fn is_decimal_digit(c: char) -> bool {
    c == '0' || c == '1' || c == '2' || c == '3' || c == '4' || c == '5' || c == '6' || c == '7'
        || c == '8' || c == '9'
}

pub open spec fn digit_value(c: char) -> nat {
    if c == '0' {
        0
    } else if c == '1' {
        1
    } else if c == '2' {
        2
    } else if c == '3' {
        3
    } else if c == '4' {
        4
    } else if c == '5' {
        5
    } else if c == '6' {
        6
    } else if c == '7' {
        7
    } else if c == '8' {
        8
    } else {
        9
    }
}

/// The digit at a character, or `None` where the character is no digit.
pub fn decimal_digit(c: char) -> (r: Option<usize>)
    ensures
        r is Some <==> is_decimal_digit(c),
        r matches Some(d) ==> d == digit_value(c),
{
    match c {
        '0' => Some(0),
        '1' => Some(1),
        '2' => Some(2),
        '3' => Some(3),
        '4' => Some(4),
        '5' => Some(5),
        '6' => Some(6),
        '7' => Some(7),
        '8' => Some(8),
        '9' => Some(9),
        _ => None,
    }
}

/// The numeric value of a sequence of decimal digits, most significant first.
pub open spec fn decimal_value(s: Seq<char>) -> nat
    decreases s.len(),
{
    if s.len() == 0 {
        0
    } else {
        decimal_value(s.drop_last()) * 10 + digit_value(s.last())
    }
}

/// The digits of an unsigned decimal literal: the whole text, or what
/// follows a single leading `+` (`str::parse::<usize>` accepts one).
pub open spec fn literal_digits(s: Seq<char>) -> Seq<char> {
    if s.len() > 0 && s[0] == '+' {
        s.drop_first()
    } else {
        s
    }
}

/// Whether the text is shaped as an unsigned decimal literal: an optional
/// leading `+`, then one or more decimal digits and nothing else.
pub open spec fn is_decimal_literal(s: Seq<char>) -> bool {
    &&& literal_digits(s).len() > 0
    &&& forall|i: int|
        0 <= i < literal_digits(s).len() ==> is_decimal_digit(#[trigger] literal_digits(s)[i])
}

/// Whether the text parses as a `usize`: well shaped, and its value in range.
pub open spec fn parses_to_usize(s: Seq<char>) -> bool {
    is_decimal_literal(s) && decimal_value(literal_digits(s)) <= usize::MAX
}

/// Appending one digit multiplies the value by ten and adds the digit.
proof fn lemma_decimal_value_step(s: Seq<char>, i: int)
    requires
        0 <= i < s.len(),
    ensures
        decimal_value(s.take(i + 1)) == decimal_value(s.take(i)) * 10 + digit_value(s[i]),
{
    assert(s.take(i + 1).drop_last() =~= s.take(i));
    assert(s.take(i + 1).last() == s[i]);
}

/// A value too large for `usize` stays too large when digits follow.
proof fn lemma_decimal_value_grows(s: Seq<char>, i: int)
    requires
        0 <= i <= s.len(),
        decimal_value(s.take(i)) > usize::MAX,
    ensures
        decimal_value(s) > usize::MAX,
    decreases s.len() - i,
{
    if i == s.len() {
        assert(s.take(i) =~= s);
    } else {
        lemma_decimal_value_step(s, i);
        assert(decimal_value(s.take(i)) * 10 >= decimal_value(s.take(i))) by (nonlinear_arith)
            requires
                decimal_value(s.take(i)) >= 0,
        ;
        lemma_decimal_value_grows(s, i + 1);
    }
}

/// Parses an unsigned decimal literal, as `str::parse::<usize>` accepts it:
/// an optional leading `+`, then decimal digits; `None` on any other shape
/// or when the value exceeds `usize::MAX`.
pub fn parse_usize(s: &[char]) -> (r: Option<usize>)
    ensures
        r is Some <==> parses_to_usize(s@),
        r matches Some(n) ==> n == decimal_value(literal_digits(s@)),
{
    let ghost digits: Seq<char> = literal_digits(s@);
    let start: usize = if s.len() > 0 && s[0] == '+' {
        1
    } else {
        0
    };
    assert(digits =~= s@.skip(start as int));
    if s.len() == start {
        return None;
    }
    let mut value: usize = 0;
    let mut too_big: bool = false;
    let mut i: usize = start;
    while i < s.len()
        invariant
            start <= i <= s.len(),
            digits == literal_digits(s@),
            digits =~= s@.skip(start as int),
            forall|k: int| 0 <= k < i - start ==> is_decimal_digit(#[trigger] digits[k]),
            !too_big ==> value == decimal_value(digits.take(i - start)),
            too_big ==> decimal_value(digits.take(i - start)) > usize::MAX,
        decreases s.len() - i,
    {
        assert(digits[i - start] == s@[i as int]);
        let d = match decimal_digit(s[i]) {
            Some(d) => d,
            None => {
                assert(!is_decimal_digit(literal_digits(s@)[i - start]));
                assert(!is_decimal_literal(s@));
                return None;
            },
        };
        proof {
            lemma_decimal_value_step(digits, i - start);
        }
        if too_big || value > (usize::MAX - d) / 10 {
            proof {
                if !too_big {
                    let v = decimal_value(digits.take(i - start)) as int;
                    let m = usize::MAX as int;
                    let q = (m - d) / 10;
                    assert(q * 10 + (m - d) % 10 == m - d) by (nonlinear_arith)
                        requires
                            q == (m - d) / 10,
                            0 <= d <= m,
                    ;
                    assert(v * 10 >= (q + 1) * 10) by (nonlinear_arith)
                        requires
                            v > q,
                    ;
                    assert(v * 10 + d > m);
                }
            }
            too_big = true;
        } else {
            let v10 = value * 10;
            assert(value * 10 + d <= usize::MAX) by (nonlinear_arith)
                requires
                    value <= (usize::MAX - d) / 10,
                    ((usize::MAX - d) / 10) * 10 <= usize::MAX - d,
                    0 <= d,
            ;
            assert(((usize::MAX - d) / 10) * 10 + (usize::MAX - d) % 10 == usize::MAX - d)
                by (nonlinear_arith)
                requires
                    d <= usize::MAX,
            ;
            value = v10 + d;
        }
        i = i + 1;
    }
    proof {
        assert(digits.take(i - start) =~= digits);
    }
    if too_big {
        proof {
            assert(decimal_value(digits) > usize::MAX);
        }
        None
    } else {
        Some(value)
    }
}

/// The lowercase mapping of one character, as `char::to_lowercase` yields it.
pub uninterp spec fn lower_of(c: char) -> Seq<char>;

/// Relies on `char::to_lowercase`: the mapping depends on the character
/// alone, and yields one or more characters.
#[verifier::external_body]
pub(crate) fn to_lower_chars(c: char) -> (r: Vec<char>)
    ensures
        r@ == lower_of(c),
        r@.len() >= 1,
{
    c.to_lowercase().collect()
}

/// A text case-folded character by character, in order.
pub open spec fn fold_lower(s: Seq<char>) -> Seq<char>
    decreases s.len(),
{
    if s.len() == 0 {
        Seq::empty()
    } else {
        lower_of(s[0]) + fold_lower(s.drop_first())
    }
}

pub proof fn lemma_fold_lower_concat(a: Seq<char>, b: Seq<char>)
    ensures
        fold_lower(a + b) == fold_lower(a) + fold_lower(b),
    decreases a.len(),
{
    if a.len() == 0 {
        assert(a + b =~= b);
        assert(fold_lower(a) + fold_lower(b) =~= fold_lower(b));
    } else {
        lemma_fold_lower_concat(a.drop_first(), b);
        assert((a + b).drop_first() =~= a.drop_first() + b);
        assert((a + b)[0] == a[0]);
        assert(lower_of(a[0]) + (fold_lower(a.drop_first()) + fold_lower(b)) =~= (lower_of(a[0])
            + fold_lower(a.drop_first())) + fold_lower(b));
    }
}

/// Case-folds a text character by character.
pub(crate) fn fold_chars(s: &[char]) -> (r: Vec<char>)
    ensures
        r@ == fold_lower(s@),
{
    let mut r: Vec<char> = Vec::new();
    let mut i: usize = 0;
    while i < s.len()
        invariant
            i <= s.len(),
            r@ == fold_lower(s@.take(i as int)),
        decreases s.len() - i,
    {
        let mut lc = to_lower_chars(s[i]);
        proof {
            lemma_fold_lower_concat(s@.take(i as int), seq![s@[i as int]]);
            assert(s@.take(i + 1) =~= s@.take(i as int) + seq![s@[i as int]]);
            assert(fold_lower(Seq::<char>::empty()) == Seq::<char>::empty());
            assert(seq![s@[i as int]].drop_first() =~= Seq::<char>::empty());
            assert(fold_lower(seq![s@[i as int]]) =~= lower_of(s@[i as int]));
        }
        r.append(&mut lc);
        i = i + 1;
    }
    proof {
        assert(s@.take(i as int) =~= s@);
    }
    r
}

/// The characters of a string, in order.
pub(crate) fn str_to_chars(s: &str) -> (r: Vec<char>)
    ensures
        r@ == s@,
{
    let n = s.unicode_len();
    let mut r: Vec<char> = Vec::new();
    let mut i: usize = 0;
    while i < n
        invariant
            i <= n,
            n == s@.len(),
            r@ == s@.take(i as int),
        decreases n - i,
    {
        r.push(s.get_char(i));
        proof {
            assert(s@.take(i + 1) =~= s@.take(i as int).push(s@[i as int]));
        }
        i = i + 1;
    }
    proof {
        assert(s@.take(i as int) =~= s@);
    }
    r
}

/// The whitespace-separated tokens of a line, from position `i` on,
/// gathered one character at a time.
pub open spec fn tokens_from(s: Seq<char>, i: int) -> Seq<Seq<char>>
    decreases s.len() - i,
{
    if i < 0 || i >= s.len() {
        Seq::empty()
    } else if is_ascii_ws(s[i]) {
        tokens_from(s, i + 1)
    } else {
        let rest = tokens_from(s, i + 1);
        if i + 1 < s.len() && !is_ascii_ws(s[i + 1]) {
            seq![seq![s[i]] + rest[0]] + rest.drop_first()
        } else {
            seq![seq![s[i]]] + rest
        }
    }
}

/// The whitespace-separated tokens of a line, in order.
pub open spec fn tokens_of(s: Seq<char>) -> Seq<Seq<char>> {
    tokens_from(s, 0)
}

/// Every token is non-empty, and a token list starting at a non-blank
/// character is non-empty.
pub proof fn lemma_tokens_from_props(s: Seq<char>, i: int)
    ensures
        forall|k: int|
            0 <= k < tokens_from(s, i).len() ==> #[trigger] tokens_from(s, i)[k].len() >= 1,
        0 <= i < s.len() && !is_ascii_ws(s[i]) ==> tokens_from(s, i).len() >= 1,
    decreases s.len() - i,
{
    if i < 0 || i >= s.len() {
    } else {
        lemma_tokens_from_props(s, i + 1);
        let rest = tokens_from(s, i + 1);
        if !is_ascii_ws(s[i]) {
            if i + 1 < s.len() && !is_ascii_ws(s[i + 1]) {
                assert forall|k: int| 0 <= k < tokens_from(s, i).len() implies #[trigger] tokens_from(
                    s,
                    i,
                )[k].len() >= 1 by {
                    if k == 0 {
                        assert(tokens_from(s, i)[0] == seq![s[i]] + rest[0]);
                    } else {
                        assert(tokens_from(s, i)[k] == rest.drop_first()[k - 1]);
                        assert(rest.drop_first()[k - 1] == rest[k]);
                    }
                }
            } else {
                assert forall|k: int| 0 <= k < tokens_from(s, i).len() implies #[trigger] tokens_from(
                    s,
                    i,
                )[k].len() >= 1 by {
                    if k == 0 {
                        assert(tokens_from(s, i)[0] == seq![s[i]]);
                    } else {
                        assert(tokens_from(s, i)[k] == rest[k - 1]);
                    }
                }
            }
        }
    }
}

/// Splits a line into its whitespace-separated tokens.
pub(crate) fn split_tokens(s: &[char]) -> (r: Vec<Vec<char>>)
    ensures
        r@.len() == tokens_of(s@).len(),
        forall|k: int| 0 <= k < r@.len() ==> #[trigger] r@[k]@ == tokens_of(s@)[k],
{
    let mut toks: Vec<Vec<char>> = Vec::new();
    let mut i: usize = s.len();
    while i > 0
        invariant
            i <= s.len(),
            toks@.len() == tokens_from(s@, i as int).len(),
            forall|k: int|
                0 <= k < toks@.len() ==> #[trigger] toks@[k]@ == tokens_from(s@, i as int)[k],
        decreases i,
    {
        i = i - 1;
        let ghost gi = i as int;
        let ghost rest = tokens_from(s@, gi + 1);
        let c = s[i];
        if !is_ws_char(c) {
            if i + 1 < s.len() && !is_ws_char(s[i + 1]) {
                proof {
                    lemma_tokens_from_props(s@, gi + 1);
                }
                let mut first = toks.remove(0);
                first.insert(0, c);
                toks.insert(0, first);
                proof {
                    assert(tokens_from(s@, gi) =~= seq![seq![s@[gi]] + rest[0]]
                        + rest.drop_first());
                    assert(toks@[0]@ =~= seq![s@[gi]] + rest[0]);
                    assert forall|k: int| 0 <= k < toks@.len() implies #[trigger] toks@[k]@
                        == tokens_from(s@, gi)[k] by {
                        if k >= 1 {
                            assert(toks@[k]@ == rest[k]);
                            assert(tokens_from(s@, gi)[k] == rest.drop_first()[k - 1]);
                        }
                    }
                }
            } else {
                let mut t: Vec<char> = Vec::new();
                t.push(c);
                toks.insert(0, t);
                proof {
                    assert(tokens_from(s@, gi) =~= seq![seq![s@[gi]]] + rest);
                    assert(toks@[0]@ =~= seq![s@[gi]]);
                    assert forall|k: int| 0 <= k < toks@.len() implies #[trigger] toks@[k]@
                        == tokens_from(s@, gi)[k] by {
                        if k >= 1 {
                            assert(toks@[k]@ == rest[k - 1]);
                        }
                    }
                }
            }
        }
    }
    toks
}

} // verus!
