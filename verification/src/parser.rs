//! Lexing and normalization of expression text.
//!
//! `get_tokens` turns free-form text into a token list plus the comparison
//! kind it saw; `reduce_tokens` folds implicit products, multiplication and
//! division into single terms and validates the alternation of tokens;
//! `get_coefficients` turns a reduced sequence into the three coefficients
//! of `x^2`, `x^1` and `x^0`.

use vstd::prelude::*;

use crate::rational::{reduced, Rat};
use crate::{is_term, spec_pow, Comparison, Error, Operator, Token};

verus! {

/// Whitespace the lexer ignores.
pub open spec fn is_space(c: char) -> bool {
    c == ' ' || c == '\t'
}

/// A decimal digit.
pub open spec fn is_digit(c: char) -> bool {
    '0' <= c && c <= '9'
}

/// The numeric value of a digit.
pub open spec fn digit_val(c: char) -> int {
    c as u32 - 48
}

/// The superscript-two sign, the one non-ASCII character the lexer accepts.
pub open spec fn superscript_two() -> char {
    '\u{b2}'
}

/// The alphabet of characters the lexer accepts.
pub open spec fn valid_char(c: char) -> bool {
    ||| is_digit(c)
    ||| c == '+'
    ||| c == '-'
    ||| c == '/'
    ||| c == '*'
    ||| c == '^'
    ||| c == superscript_two()
    ||| c == '>'
    ||| c == '<'
    ||| c == '='
    ||| c == 'x'
    ||| c == 'X'
    ||| c == ' '
    ||| c == '\t'
}

/// Whether `c` is a decimal digit.
fn digit(c: char) -> (b: bool)
    ensures
        b == is_digit(c),
{
    c >= '0' && c <= '9'
}

/// Whether `c` belongs to the token alphabet.
fn valid(c: char) -> (b: bool)
    ensures
        b == valid_char(c),
{
    digit(c) || c == '+' || c == '-' || c == '/' || c == '*' || c == '^' || c == '\u{b2}'
        || c == '>' || c == '<' || c == '=' || c == 'x' || c == 'X' || c == ' ' || c == '\t'
}

/// The characters the lexer accepts, each exactly once.
pub fn get_token_list() -> (list: Vec<char>)
    ensures
        forall|c: char| #[trigger] list@.contains(c) <==> valid_char(c),
{
    let list: Vec<char> = vec![
        '+',
        '-',
        '/',
        '*',
        '^',
        '\u{b2}',
        '>',
        '<',
        '=',
        'x',
        'X',
        ' ',
        '\t',
        '0',
        '1',
        '2',
        '3',
        '4',
        '5',
        '6',
        '7',
        '8',
        '9',
    ];
    proof {
        assert forall|c: char| #[trigger] list@.contains(c) implies valid_char(c) by {
            let i = choose|i: int| 0 <= i < list@.len() && list@[i] == c;
            assert(valid_char(list@[i]));
        }
        assert forall|c: char| valid_char(c) implies #[trigger] list@.contains(c) by {
            if is_digit(c) {
                let v = c as u32;
                assert(list@[13 + (v - 48)] == c) by {
                    assert(c == ((48 + (v - 48)) as u32) as char);
                }
            } else if c == '+' {
                assert(list@[0] == c);
            } else if c == '-' {
                assert(list@[1] == c);
            } else if c == '/' {
                assert(list@[2] == c);
            } else if c == '*' {
                assert(list@[3] == c);
            } else if c == '^' {
                assert(list@[4] == c);
            } else if c == superscript_two() {
                assert(list@[5] == c);
            } else if c == '>' {
                assert(list@[6] == c);
            } else if c == '<' {
                assert(list@[7] == c);
            } else if c == '=' {
                assert(list@[8] == c);
            } else if c == 'x' {
                assert(list@[9] == c);
            } else if c == 'X' {
                assert(list@[10] == c);
            } else if c == ' ' {
                assert(list@[11] == c);
            } else {
                assert(list@[12] == c);
            }
        }
    }
    list
}

/// The first position at or after `from` that does not hold whitespace.
pub fn skip_spaces(chars: &Vec<char>, from: usize) -> (j: usize)
    requires
        from <= chars@.len(),
    ensures
        from <= j <= chars@.len(),
        forall|k: int| from <= k < j ==> is_space(#[trigger] chars@[k]),
        j < chars@.len() ==> !is_space(chars@[j as int]),
{
    let mut j = from;
    while j < chars.len() && (chars[j] == ' ' || chars[j] == '\t')
        invariant
            from <= j <= chars@.len(),
            forall|k: int| from <= k < j ==> is_space(#[trigger] chars@[k]),
        decreases chars@.len() - j,
    {
        j = j + 1;
    }
    j
}

/// The sequence with all whitespace removed.
pub open spec fn strip(s: Seq<char>) -> Seq<char>
    decreases s.len(),
{
    if s.len() == 0 {
        Seq::empty()
    } else if is_space(s[0]) {
        strip(s.drop_first())
    } else {
        seq![s[0]] + strip(s.drop_first())
    }
}

/// `strip` of one more character at the back.
proof fn lemma_strip_push(s: Seq<char>, c: char)
    ensures
        strip(s.push(c)) == if is_space(c) {
            strip(s)
        } else {
            strip(s).push(c)
        },
    decreases s.len(),
{
    if s.len() == 0 {
        assert(s.push(c).drop_first() =~= Seq::<char>::empty());
        if !is_space(c) {
            assert(seq![c] + strip(Seq::<char>::empty()) =~= strip(s).push(c));
        }
    } else {
        assert(s.push(c).drop_first() =~= s.drop_first().push(c));
        lemma_strip_push(s.drop_first(), c);
        if !is_space(s[0]) && !is_space(c) {
            assert(seq![s[0]] + strip(s.drop_first()).push(c) =~= (seq![s[0]] + strip(
                s.drop_first(),
            )).push(c));
        }
    }
}

/// The stripped sequence holds no whitespace.
pub proof fn lemma_strip_no_space(s: Seq<char>)
    ensures
        forall|k: int| 0 <= k < strip(s).len() ==> !is_space(#[trigger] strip(s)[k]),
    decreases s.len(),
{
    if s.len() > 0 {
        lemma_strip_no_space(s.drop_first());
        let t = strip(s.drop_first());
        if is_space(s[0]) {
            assert forall|k: int| 0 <= k < strip(s).len() implies !is_space(#[trigger] strip(s)[k]) by {
                assert(strip(s)[k] == t[k]);
            }
        } else {
            assert forall|k: int| 0 <= k < strip(s).len() implies !is_space(#[trigger] strip(s)[k]) by {
                if k == 0 {
                    assert(strip(s)[0] == s[0]);
                } else {
                    assert(strip(s)[k] == t[k - 1]);
                }
            }
        }
    }
}

/// Removes every whitespace character.
fn strip_chars(chars: &Vec<char>) -> (out: Vec<char>)
    ensures
        out@ == strip(chars@),
        forall|k: int| 0 <= k < out@.len() ==> !is_space(#[trigger] out@[k]),
{
    let mut out: Vec<char> = Vec::new();
    let mut i: usize = 0;
    while i < chars.len()
        invariant
            i <= chars@.len(),
            out@ == strip(chars@.subrange(0, i as int)),
        decreases chars@.len() - i,
    {
        let c = chars[i];
        proof {
            assert(chars@.subrange(0, i + 1) =~= chars@.subrange(0, i as int).push(c));
            lemma_strip_push(chars@.subrange(0, i as int), c);
        }
        if !(c == ' ' || c == '\t') {
            out.push(c);
        }
        i = i + 1;
    }
    proof {
        assert(chars@.subrange(0, chars@.len() as int) =~= chars@);
        lemma_strip_no_space(chars@);
    }
    out
}

/// `Error`, with sequences in place of vectors, for use in specifications.
pub enum ErrV {
    InvalidChar(char),
    MalformedNumber(Seq<char>),
    NumberTooLarge(Seq<char>),
    MissingExponent,
    InvalidExponent(char),
    DegreeTooHigh,
    MisplacedPower(char),
    TrailingMinus,
    ComparisonAtStart(char),
    ComparisonAtEnd(char),
    DuplicateComparison(char),
    InvalidAfterComparison(char, char),
    AdjacentTokens(Token, Token),
    CannotMultiply(Token, Token),
    CannotDivide(Token, Token),
    MisplacedComparison(Token),
    BoundaryToken(Token),
    EmptyExpression,
    DivisionByZero(Rat),
    Overflow,
}

/// The specification-level form of an error.
pub open spec fn error_view(e: Error) -> ErrV {
    match e {
        Error::InvalidChar(c) => ErrV::InvalidChar(c),
        Error::MalformedNumber(v) => ErrV::MalformedNumber(v@),
        Error::NumberTooLarge(v) => ErrV::NumberTooLarge(v@),
        Error::MissingExponent => ErrV::MissingExponent,
        Error::InvalidExponent(c) => ErrV::InvalidExponent(c),
        Error::DegreeTooHigh => ErrV::DegreeTooHigh,
        Error::MisplacedPower(c) => ErrV::MisplacedPower(c),
        Error::TrailingMinus => ErrV::TrailingMinus,
        Error::ComparisonAtStart(c) => ErrV::ComparisonAtStart(c),
        Error::ComparisonAtEnd(c) => ErrV::ComparisonAtEnd(c),
        Error::DuplicateComparison(c) => ErrV::DuplicateComparison(c),
        Error::InvalidAfterComparison(a, b) => ErrV::InvalidAfterComparison(a, b),
        Error::AdjacentTokens(a, b) => ErrV::AdjacentTokens(a, b),
        Error::CannotMultiply(a, b) => ErrV::CannotMultiply(a, b),
        Error::CannotDivide(a, b) => ErrV::CannotDivide(a, b),
        Error::MisplacedComparison(t) => ErrV::MisplacedComparison(t),
        Error::BoundaryToken(t) => ErrV::BoundaryToken(t),
        Error::EmptyExpression => ErrV::EmptyExpression,
        Error::DivisionByZero(q) => ErrV::DivisionByZero(q),
        Error::Overflow => ErrV::Overflow,
    }
}

/// Where the run of digits and decimal points starting at `i` ends.
pub open spec fn literal_end(s: Seq<char>, i: int) -> int
    decreases s.len() - i, 0int
        when 0 <= i <= s.len()
{
    if i < s.len() && (is_digit(s[i]) || s[i] == '.') {
        literal_end(s, i + 1)
    } else {
        i
    }
}

/// `literal_end` stays within the sequence.
pub proof fn lemma_literal_end(s: Seq<char>, i: int)
    requires
        0 <= i <= s.len(),
    ensures
        i <= literal_end(s, i) <= s.len(),
    decreases s.len() - i,
{
    if i < s.len() && (is_digit(s[i]) || s[i] == '.') {
        lemma_literal_end(s, i + 1);
    }
}

/// How many decimal points `s[i..end)` holds.
pub open spec fn dot_count(s: Seq<char>, i: int, end: int) -> int
    decreases end - i
        when i <= end
{
    if i < end {
        dot_count(s, i, end - 1) + if s[end - 1] == '.' {
            1int
        } else {
            0int
        }
    } else {
        0
    }
}

/// How many digits `s[i..end)` holds.
pub open spec fn digit_count(s: Seq<char>, i: int, end: int) -> int
    decreases end - i
        when i <= end
{
    if i < end {
        digit_count(s, i, end - 1) + if s[end - 1] == '.' {
            0int
        } else {
            1int
        }
    } else {
        0
    }
}

/// Numerator, denominator and whether a decimal point was seen, accumulated
/// left to right over the literal `s[i..end)` of digits and points.
pub open spec fn lit_val(s: Seq<char>, i: int, end: int) -> (int, int, bool)
    decreases end - i
        when i <= end
{
    if i < end {
        let (acc, den, dot) = lit_val(s, i, end - 1);
        let c = s[end - 1];
        if c == '.' {
            (acc, den, true)
        } else {
            (acc * 10 + digit_val(c), if dot {
                den * 10
            } else {
                den
            }, dot)
        }
    } else {
        (0, 1, false)
    }
}

/// Ten to the power `k`.
pub open spec fn p10(k: nat) -> int
    decreases k,
{
    if k == 0 {
        1
    } else {
        10 * p10((k - 1) as nat)
    }
}

/// `p10` grows with its argument.
proof fn lemma_p10_mono(a: nat, b: nat)
    requires
        a <= b,
    ensures
        1 <= p10(a) <= p10(b),
    decreases b,
{
    if b > 0 {
        if a == b {
            lemma_p10_mono((b - 1) as nat, (b - 1) as nat);
        } else {
            lemma_p10_mono(a, (b - 1) as nat);
        }
    }
}

/// Bounds of the accumulated literal value: the numerator stays under ten to
/// the number of digits, the denominator is ten to the number of digits seen
/// after a decimal point, hence at most ten to the digit count, and counts
/// are nonnegative.
proof fn lemma_lit_val_bounds(s: Seq<char>, i: int, end: int)
    requires
        0 <= i <= end <= s.len(),
        forall|k: int| i <= k < end ==> is_digit(#[trigger] s[k]) || s[k] == '.',
    ensures
        0 <= dot_count(s, i, end),
        0 <= digit_count(s, i, end) <= end - i,
        0 <= lit_val(s, i, end).0 < p10(digit_count(s, i, end) as nat),
        1 <= lit_val(s, i, end).1 <= p10(digit_count(s, i, end) as nat),
    decreases end - i,
{
    if i < end {
        lemma_lit_val_bounds(s, i, end - 1);
        let (acc, den, dot) = lit_val(s, i, end - 1);
        let nd = digit_count(s, i, end - 1) as nat;
        if s[end - 1] == '.' {
            // counts unchanged
        } else {
            assert(digit_val(s[end - 1]) <= 9);
            assert(acc * 10 + digit_val(s[end - 1]) < p10(nd) * 10) by (nonlinear_arith)
                requires
                    acc < p10(nd),
                    digit_val(s[end - 1]) <= 9,
            {
            }
            assert(p10(nd + 1) == 10 * p10(nd));
            if dot {
                assert(den * 10 <= p10(nd) * 10) by (nonlinear_arith)
                    requires
                        den <= p10(nd),
                        p10(nd) >= 1,
                {
                }
            } else {
                lemma_p10_mono(nd, nd + 1);
            }
        }
    }
}

/// Most digits a numeric literal may hold; beyond this the 64-bit rational
/// would overflow in any case.
pub const MAX_LITERAL_DIGITS: usize = 38;

/// The rational one, the implicit coefficient of a bare variable.
pub open spec fn rat_one() -> Rat {
    Rat { num: 1, den: 1 }
}

/// Exponent suffix after `^`: exactly one digit, and at most 2.
pub open spec fn spec_get_exponent(s: Seq<char>, i: int) -> Result<(u8, int), ErrV> {
    if i >= s.len() {
        Err(ErrV::MissingExponent)
    } else {
        let c = s[i];
        if !valid_char(c) {
            Err(ErrV::InvalidChar(c))
        } else if c == '0' {
            Ok((0u8, i + 1))
        } else if c == '1' {
            Ok((1u8, i + 1))
        } else if c == '2' {
            Ok((2u8, i + 1))
        } else if is_digit(c) {
            Err(ErrV::DegreeTooHigh)
        } else {
            Err(ErrV::InvalidExponent(c))
        }
    }
}

/// Reads the single exponent digit at position `i`. Digits above 2 are
/// rejected: the solver handles degrees up to two only.
pub fn get_exponent(chars: &Vec<char>, i: usize) -> (r: Result<(u8, usize), Error>)
    requires
        i <= chars@.len(),
    ensures
        match r {
            Ok((e, j)) => spec_get_exponent(chars@, i as int) == Ok::<(u8, int), ErrV>(
                (e, j as int),
            ) && j == i + 1 && e <= 2,
            Err(err) => spec_get_exponent(chars@, i as int) == Err::<(u8, int), ErrV>(
                error_view(err),
            ),
        },
{
    if i >= chars.len() {
        return Err(Error::MissingExponent);
    }
    let c = chars[i];
    if !valid(c) {
        Err(Error::InvalidChar(c))
    } else if c == '0' {
        Ok((0, i + 1))
    } else if c == '1' {
        Ok((1, i + 1))
    } else if c == '2' {
        Ok((2, i + 1))
    } else if digit(c) {
        Err(Error::DegreeTooHigh)
    } else {
        Err(Error::InvalidExponent(c))
    }
}

/// Exponent of a variable: nothing or another token means degree one, the
/// superscript-two sign means two, `^` asks for one digit of at most 2.
pub open spec fn spec_get_var_exponent(s: Seq<char>, i: int) -> Result<(u8, int), ErrV> {
    if i >= s.len() {
        Ok((1u8, i))
    } else {
        let c = s[i];
        if c == superscript_two() {
            Ok((2u8, i + 1))
        } else if c == '^' {
            spec_get_exponent(s, i + 1)
        } else if valid_char(c) {
            Ok((1u8, i))
        } else {
            Err(ErrV::InvalidChar(c))
        }
    }
}

/// Reads the optional power suffix of a variable starting at `i` and yields
/// the unit term of that degree.
pub fn get_var_exponent(chars: &Vec<char>, i: usize) -> (r: Result<(Token, usize), Error>)
    requires
        i <= chars@.len(),
    ensures
        match r {
            Ok((t, j)) => {
                &&& spec_get_var_exponent(chars@, i as int) matches Ok((d, jj))
                &&& jj == j as int
                &&& t == Token::Var(rat_one(), d)
                &&& d <= 2
                &&& i <= j <= chars@.len()
            },
            Err(err) => spec_get_var_exponent(chars@, i as int) == Err::<(u8, int), ErrV>(
                error_view(err),
            ),
        },
{
    let one = Rat::from_int(1);
    if i >= chars.len() {
        return Ok((Token::Var(one, 1), i));
    }
    let c = chars[i];
    if c == '\u{b2}' {
        Ok((Token::Var(one, 2), i + 1))
    } else if c == '^' {
        match get_exponent(chars, i + 1) {
            Ok((e, j)) => Ok((Token::Var(one, e), j)),
            Err(err) => Err(err),
        }
    } else if valid(c) {
        Ok((Token::Var(one, 1), i))
    } else {
        Err(Error::InvalidChar(c))
    }
}

/// The comparison token introduced by `c`, with one character of lookahead
/// at position `i` to combine `>=` and `<=`.
pub open spec fn spec_get_comparison(c: char, s: Seq<char>, i: int) -> Result<
    (Comparison, int),
    ErrV,
> {
    if i >= s.len() {
        Err(ErrV::ComparisonAtEnd(c))
    } else {
        let next = s[i];
        if c == '=' && next != '>' && next != '<' && next != '=' {
            Ok((Comparison::Equal, i))
        } else if (c == '>' || c == '<') && next != '>' && next != '<' {
            if !valid_char(next) {
                Err(ErrV::InvalidChar(next))
            } else if next == '=' {
                Ok(
                    (
                        if c == '>' {
                            Comparison::GreaterEq
                        } else {
                            Comparison::LowerEq
                        },
                        i + 1,
                    ),
                )
            } else {
                Ok(
                    (
                        if c == '>' {
                            Comparison::Greater
                        } else {
                            Comparison::Lower
                        },
                        i,
                    ),
                )
            }
        } else {
            Err(ErrV::InvalidAfterComparison(c, next))
        }
    }
}

/// Reads the comparison token that the sign `c` introduces, looking one
/// character ahead at position `i`.
pub fn get_comparison(c: char, chars: &Vec<char>, i: usize) -> (r: Result<(Token, usize), Error>)
    requires
        i <= chars@.len(),
        c == '=' || c == '>' || c == '<',
    ensures
        match r {
            Ok((t, j)) => {
                &&& spec_get_comparison(c, chars@, i as int) matches Ok((k, jj))
                &&& jj == j as int
                &&& t == Token::Cmp(k)
                &&& k != Comparison::No
                &&& i <= j <= chars@.len()
            },
            Err(err) => spec_get_comparison(c, chars@, i as int) == Err::<(Comparison, int), ErrV>(
                error_view(err),
            ),
        },
{
    if i >= chars.len() {
        return Err(Error::ComparisonAtEnd(c));
    }
    let next = chars[i];
    if c == '=' && next != '>' && next != '<' && next != '=' {
        Ok((Token::Cmp(Comparison::Equal), i))
    } else if (c == '>' || c == '<') && next != '>' && next != '<' {
        if !valid(next) {
            Err(Error::InvalidChar(next))
        } else if next == '=' {
            if c == '>' {
                Ok((Token::Cmp(Comparison::GreaterEq), i + 1))
            } else {
                Ok((Token::Cmp(Comparison::LowerEq), i + 1))
            }
        } else {
            if c == '>' {
                Ok((Token::Cmp(Comparison::Greater), i))
            } else {
                Ok((Token::Cmp(Comparison::Lower), i))
            }
        }
    } else {
        Err(Error::InvalidAfterComparison(c, next))
    }
}

/// A copy of `chars[from..to)`.
fn copy_range(chars: &Vec<char>, from: usize, to: usize) -> (out: Vec<char>)
    requires
        from <= to <= chars@.len(),
    ensures
        out@ == chars@.subrange(from as int, to as int),
{
    let mut out: Vec<char> = Vec::new();
    let mut k = from;
    while k < to
        invariant
            from <= k <= to <= chars@.len(),
            out@ == chars@.subrange(from as int, k as int),
        decreases to - k,
    {
        out.push(chars[k]);
        proof {
            assert(chars@.subrange(from as int, k + 1) =~= chars@.subrange(
                from as int,
                k as int,
            ).push(chars@[k as int]));
        }
        k = k + 1;
    }
    out
}

/// Digit counts of prefixes never exceed the whole range's count.
proof fn lemma_digit_count_mono(s: Seq<char>, i: int, k: int, end: int)
    requires
        i <= k <= end,
    ensures
        digit_count(s, i, k) <= digit_count(s, i, end),
        dot_count(s, i, k) <= dot_count(s, i, end),
    decreases end - k,
{
    if k < end {
        lemma_digit_count_mono(s, i, k + 1, end);
    }
}

/// The concrete value of ten to the 38th.
proof fn lemma_p10_38()
    ensures
        p10(38) == 0x4b3b4ca85a86c47a098a224000000000,
{
    reveal_with_fuel(p10, 40);
}

/// A numeric literal with its optional power or variable suffix, starting at
/// the digit at position `i`: the term's value and degree, and the position
/// after it.
pub open spec fn spec_get_number(s: Seq<char>, i: int) -> Result<(Rat, u8, int), ErrV>
    recommends
        0 <= i < s.len(),
        is_digit(s[i]),
{
    let end = literal_end(s, i);
    let lit = s.subrange(i, end);
    if end < s.len() && !valid_char(s[end]) {
        Err(ErrV::InvalidChar(s[end]))
    } else if dot_count(s, i, end) > 1 || s[end - 1] == '.' {
        Err(ErrV::MalformedNumber(lit))
    } else if digit_count(s, i, end) > MAX_LITERAL_DIGITS as int {
        Err(ErrV::NumberTooLarge(lit))
    } else {
        let v = lit_val(s, i, end);
        match reduced((v.0, v.1)) {
            None => Err(ErrV::NumberTooLarge(lit)),
            Some(q) => {
                if end < s.len() && s[end] == '^' {
                    match spec_get_exponent(s, end + 1) {
                        Ok((e, j)) => match spec_pow(q, e as nat) {
                            Ok(p) => Ok((p, 0u8, j)),
                            Err(_) => Err(ErrV::Overflow),
                        },
                        Err(err) => Err(err),
                    }
                } else if end < s.len() && s[end] == superscript_two() {
                    match spec_pow(q, 2) {
                        Ok(p) => Ok((p, 0u8, end + 1)),
                        Err(_) => Err(ErrV::Overflow),
                    }
                } else if end < s.len() && (s[end] == 'x' || s[end] == 'X') {
                    match spec_get_var_exponent(s, end + 1) {
                        Ok((d, j)) => Ok((q, d, j)),
                        Err(err) => Err(err),
                    }
                } else {
                    Ok((q, 0u8, end))
                }
            },
        }
    }
}

/// Reads the numeric literal starting at the digit at position `i`, with its
/// optional exponent or variable suffix, and yields the resulting term.
pub fn get_number(chars: &Vec<char>, i: usize) -> (r: Result<(Token, usize), Error>)
    requires
        i < chars@.len(),
        is_digit(chars@[i as int]),
    ensures
        match r {
            Ok((t, j)) => {
                &&& spec_get_number(chars@, i as int) matches Ok((v, d, jj))
                &&& jj == j as int
                &&& t == Token::Var(v, d)
                &&& v.wf()
                &&& d <= 2
                &&& i < j <= chars@.len()
            },
            Err(err) => spec_get_number(chars@, i as int) == Err::<(Rat, u8, int), ErrV>(
                error_view(err),
            ),
        },
{
    let n = chars.len();
    let ghost s = chars@;

    // Find the end of the run of digits and decimal points, counting both.
    let mut j = i;
    let mut dots: usize = 0;
    let mut ndig: usize = 0;
    while j < n && (digit(chars[j]) || chars[j] == '.')
        invariant
            i <= j <= n,
            n == s.len(),
            s == chars@,
            literal_end(s, i as int) == literal_end(s, j as int),
            forall|k: int| i <= k < j ==> is_digit(#[trigger] s[k]) || s[k] == '.',
            dots == dot_count(s, i as int, j as int),
            ndig == digit_count(s, i as int, j as int),
            dots <= j - i,
            ndig <= j - i,
        decreases n - j,
    {
        if chars[j] == '.' {
            dots = dots + 1;
        } else {
            ndig = ndig + 1;
        }
        j = j + 1;
    }
    let end = j;
    proof {
        assert(literal_end(s, end as int) == end);
        lemma_literal_end(s, i as int);
    }

    if end < n && !valid(chars[end]) {
        return Err(Error::InvalidChar(chars[end]));
    }
    if dots > 1 || chars[end - 1] == '.' {
        return Err(Error::MalformedNumber(copy_range(chars, i, end)));
    }
    if ndig > MAX_LITERAL_DIGITS {
        return Err(Error::NumberTooLarge(copy_range(chars, i, end)));
    }

    // Accumulate the exact value of the literal.
    let mut acc: u128 = 0;
    let mut den: u128 = 1;
    let mut dot = false;
    let mut k = i;
    proof {
        lemma_p10_38();
    }
    while k < end
        invariant
            i <= k <= end <= n,
            n == s.len(),
            s == chars@,
            forall|q: int| i <= q < end ==> is_digit(#[trigger] s[q]) || s[q] == '.',
            digit_count(s, i as int, end as int) <= 38,
            lit_val(s, i as int, k as int) == (acc as int, den as int, dot),
            p10(38) == 0x4b3b4ca85a86c47a098a224000000000,
        decreases end - k,
    {
        proof {
            lemma_digit_count_mono(s, i as int, k + 1, end as int);
            lemma_lit_val_bounds(s, i as int, k as int);
            lemma_lit_val_bounds(s, i as int, k + 1);
            lemma_p10_mono(digit_count(s, i as int, k + 1) as nat, 38);
        }
        let c = chars[k];
        if c == '.' {
            dot = true;
        } else {
            let d = (c as u32) - 48;
            acc = acc * 10 + (d as u128);
            if dot {
                den = den * 10;
            }
        }
        k = k + 1;
    }
    proof {
        lemma_lit_val_bounds(s, i as int, end as int);
        lemma_p10_mono(digit_count(s, i as int, end as int) as nat, 38);
    }

    let value = match crate::rational::rat_make(acc as i128, den as i128) {
        Some(q) => q,
        None => {
            return Err(Error::NumberTooLarge(copy_range(chars, i, end)));
        },
    };

    // Optional power or variable suffix.
    if end < n && chars[end] == '^' {
        match get_exponent(chars, end + 1) {
            Ok((e, j2)) => match crate::pow(value, e) {
                Ok(p) => Ok((Token::Var(p, 0), j2)),
                Err(_) => Err(Error::Overflow),
            },
            Err(err) => Err(err),
        }
    } else if end < n && chars[end] == '\u{b2}' {
        match crate::pow(value, 2) {
            Ok(p) => Ok((Token::Var(p, 0), end + 1)),
            Err(_) => Err(Error::Overflow),
        }
    } else if end < n && (chars[end] == 'x' || chars[end] == 'X') {
        match get_var_exponent(chars, end + 1) {
            Ok((t, j2)) => {
                let d = match t {
                    Token::Var(_, d) => d,
                    _ => 0,
                };
                Ok((Token::Var(value, d), j2))
            },
            Err(err) => Err(err),
        }
    } else {
        Ok((Token::Var(value, 0), end))
    }
}

/// Whether a negated literal after `-` needs an implicit `+` before it: only
/// when something precedes it that is neither an operator nor a comparison.
pub open spec fn needs_implicit_add(acc: Seq<Token>) -> bool {
    acc.len() > 0 && !(acc.last() is Operator) && !(acc.last() is Cmp)
}

/// The lexer's next position: what a sub-parser returned, clamped into
/// `(i, n]` so that the scan always advances.
pub open spec fn advance(i: int, j: int, n: int) -> int {
    if j <= i {
        i + 1
    } else if j > n {
        n
    } else {
        j
    }
}

/// The whole lexer, one token per step, from position `i` with the tokens
/// and comparison seen so far.
pub open spec fn lex(s: Seq<char>, i: int, acc: Seq<Token>, cmp: Comparison) -> Result<
    (Seq<Token>, Comparison),
    ErrV,
>
    decreases s.len() - i,
        when 0 <= i <= s.len()
{
    if i >= s.len() {
        Ok((acc, cmp))
    } else {
        let c = s[i];
        let n = s.len() as int;
        if is_space(c) {
            lex(s, i + 1, acc, cmp)
        } else if is_digit(c) {
            match spec_get_number(s, i) {
                Ok((v, d, j)) => lex(s, advance(i, j, n), acc.push(Token::Var(v, d)), cmp),
                Err(e) => Err(e),
            }
        } else if c == 'x' || c == 'X' {
            match spec_get_var_exponent(s, i + 1) {
                Ok((d, j)) => lex(s, advance(i, j, n), acc.push(Token::Var(rat_one(), d)), cmp),
                Err(e) => Err(e),
            }
        } else if c == '^' || c == superscript_two() {
            Err(ErrV::MisplacedPower(c))
        } else if c == '+' {
            lex(s, i + 1, acc.push(Token::Operator(Operator::Add)), cmp)
        } else if c == '-' {
            if i + 1 >= s.len() {
                Err(ErrV::TrailingMinus)
            } else if is_digit(s[i + 1]) {
                match spec_get_number(s, i + 1) {
                    Ok((v, d, j)) => {
                        let neg = Rat { num: (-(v.num as int)) as i64, den: v.den };
                        let acc2 = if needs_implicit_add(acc) {
                            acc.push(Token::Operator(Operator::Add))
                        } else {
                            acc
                        };
                        lex(s, advance(i, j, n), acc2.push(Token::Var(neg, d)), cmp)
                    },
                    Err(e) => Err(e),
                }
            } else {
                lex(s, i + 1, acc.push(Token::Operator(Operator::Sub)), cmp)
            }
        } else if c == '*' {
            lex(s, i + 1, acc.push(Token::Operator(Operator::Mult)), cmp)
        } else if c == '/' {
            lex(s, i + 1, acc.push(Token::Operator(Operator::Div)), cmp)
        } else if c == '>' || c == '<' || c == '=' {
            if cmp != Comparison::No {
                Err(ErrV::DuplicateComparison(c))
            } else if acc.len() == 0 {
                Err(ErrV::ComparisonAtStart(c))
            } else {
                match spec_get_comparison(c, s, i + 1) {
                    Ok((k, j)) => lex(s, advance(i, j, n), acc.push(Token::Cmp(k)), k),
                    Err(e) => Err(e),
                }
            }
        } else {
            Err(ErrV::InvalidChar(c))
        }
    }
}

/// An executable lexer result, as the specification-level result it stands
/// for.
pub open spec fn lex_output(r: Result<(Vec<Token>, Comparison), Error>) -> Result<
    (Seq<Token>, Comparison),
    ErrV,
> {
    match r {
        Ok((ts, c)) => Ok((ts@, c)),
        Err(e) => Err(error_view(e)),
    }
}

/// The characters of a string.
fn string_chars(s: &String) -> (out: Vec<char>)
    ensures
        out@ == s@,
{
    let n = s.as_str().unicode_len();
    let mut out: Vec<char> = Vec::new();
    let mut i: usize = 0;
    while i < n
        invariant
            i <= n,
            n == s@.len(),
            out@ == s@.subrange(0, i as int),
        decreases n - i,
    {
        out.push(s.as_str().get_char(i));
        proof {
            assert(s@.subrange(0, i + 1) =~= s@.subrange(0, i as int).push(s@[i as int]));
        }
        i = i + 1;
    }
    proof {
        assert(s@.subrange(0, n as int) =~= s@);
    }
    out
}

/// Lexes an expression, whitespace-insensitively, into its token list and
/// the comparison kind it holds (`No` when there is none). The result is
/// exactly what the specification-level lexer `lex` yields on the stripped
/// text, token by token and error by error.
pub fn get_tokens(expression: &String) -> (r: Result<(Vec<Token>, Comparison), Error>)
    ensures
        lex_output(r) == lex(strip(expression@), 0, Seq::<Token>::empty(), Comparison::No),
        r matches Ok((ts, cmp)) ==> crate::tokens_wf(ts@),
{
    let chars = string_chars(expression);
    let stripped = strip_chars(&chars);
    let ghost s = stripped@;
    let n = stripped.len();
    let mut tokens: Vec<Token> = Vec::new();
    let mut cmp = Comparison::No;
    let mut i: usize = 0;
    while i < n
        invariant
            i <= n,
            n == s.len(),
            s == stripped@,
            s == strip(expression@),
            forall|k: int| 0 <= k < n ==> !is_space(#[trigger] s[k]),
            crate::tokens_wf(tokens@),
            lex(s, 0, Seq::<Token>::empty(), Comparison::No) == lex(s, i as int, tokens@, cmp),
        decreases n - i,
    {
        let c = stripped[i];
        if digit(c) {
            match get_number(&stripped, i) {
                Ok((t, j)) => {
                    tokens.push(t);
                    i = j;
                },
                Err(e) => {
                    return Err(e);
                },
            }
        } else if c == 'x' || c == 'X' {
            match get_var_exponent(&stripped, i + 1) {
                Ok((t, j)) => {
                    tokens.push(t);
                    i = j;
                },
                Err(e) => {
                    return Err(e);
                },
            }
        } else if c == '^' || c == '\u{b2}' {
            return Err(Error::MisplacedPower(c));
        } else if c == '+' {
            tokens.push(Token::Operator(Operator::Add));
            i = i + 1;
        } else if c == '-' {
            if i + 1 >= n {
                return Err(Error::TrailingMinus);
            }
            if digit(stripped[i + 1]) {
                match get_number(&stripped, i + 1) {
                    Ok((t, j)) => {
                        let (v, d) = match t {
                            Token::Var(v, d) => (v, d),
                            _ => (Rat { num: 0, den: 1 }, 0),
                        };
                        let push_add = if tokens.len() == 0 {
                            false
                        } else {
                            match tokens[tokens.len() - 1] {
                                Token::Operator(_) => false,
                                Token::Cmp(_) => false,
                                _ => true,
                            }
                        };
                        if push_add {
                            tokens.push(Token::Operator(Operator::Add));
                        }
                        tokens.push(Token::Var(v.neg(), d));
                        i = j;
                    },
                    Err(e) => {
                        return Err(e);
                    },
                }
            } else {
                tokens.push(Token::Operator(Operator::Sub));
                i = i + 1;
            }
        } else if c == '*' {
            tokens.push(Token::Operator(Operator::Mult));
            i = i + 1;
        } else if c == '/' {
            tokens.push(Token::Operator(Operator::Div));
            i = i + 1;
        } else if c == '>' || c == '<' || c == '=' {
            if !matches!(cmp, Comparison::No) {
                return Err(Error::DuplicateComparison(c));
            }
            if tokens.len() == 0 {
                return Err(Error::ComparisonAtStart(c));
            }
            match get_comparison(c, &stripped, i + 1) {
                Ok((t, j)) => {
                    let k = match t {
                        Token::Cmp(k) => k,
                        _ => Comparison::No,
                    };
                    tokens.push(t);
                    cmp = k;
                    i = j;
                },
                Err(e) => {
                    return Err(e);
                },
            }
        } else {
            return Err(Error::InvalidChar(c));
        }
    }
    Ok((tokens, cmp))
}

/// One normalizer step: fold the incoming token `t` into the stack `acc`.
/// A term directly after a term of degree zero joins it by multiplication,
/// the degree taken from the second; a term after a term of nonzero degree
/// is a product of two variables and is rejected; a term after `*` or `/`
/// folds with the term below the operator; a term after a comparison is
/// accepted when a term also precedes the comparison; any two adjacent
/// operators or comparisons are rejected.
pub open spec fn reduce_step(acc: Seq<Token>, t: Token) -> Result<Seq<Token>, ErrV> {
    if acc.len() == 0 {
        if !is_term(t) {
            Err(ErrV::BoundaryToken(t))
        } else {
            Ok(seq![t])
        }
    } else {
        let last = acc.last();
        if last is Var && t is Var {
            match (last, t) {
                (Token::Var(n1, d1), Token::Var(n2, d2)) => {
                    if d1 != 0 {
                        Err(ErrV::CannotMultiply(last, t))
                    } else {
                        match reduced(crate::rational::raw_mul(n1, n2)) {
                            Some(q) => Ok(acc.drop_last().push(Token::Var(q, d2))),
                            None => Err(ErrV::Overflow),
                        }
                    }
                },
                _ => Err(ErrV::BoundaryToken(t)),
            }
        } else if crate::same_category(last, t) {
            Err(ErrV::AdjacentTokens(t, last))
        } else {
            match (last, t) {
                (Token::Operator(Operator::Mult), Token::Var(n2, d2)) => {
                    if acc.len() < 2 {
                        Err(ErrV::BoundaryToken(t))
                    } else {
                        let prev = acc[acc.len() - 2];
                        match prev {
                            Token::Var(n1, d1) => {
                                if d1 > 0 && d2 > 0 {
                                    Err(ErrV::CannotMultiply(prev, t))
                                } else {
                                    match reduced(crate::rational::raw_mul(n1, n2)) {
                                        Some(q) => Ok(
                                            acc.drop_last().drop_last().push(
                                                Token::Var(q, (d1 + d2) as u8),
                                            ),
                                        ),
                                        None => Err(ErrV::Overflow),
                                    }
                                }
                            },
                            _ => Err(ErrV::BoundaryToken(t)),
                        }
                    }
                },
                (Token::Operator(Operator::Div), Token::Var(n2, d2)) => {
                    if acc.len() < 2 {
                        Err(ErrV::BoundaryToken(t))
                    } else {
                        let prev = acc[acc.len() - 2];
                        match prev {
                            Token::Var(n1, d1) => {
                                if d2 > 0 {
                                    Err(ErrV::CannotDivide(prev, t))
                                } else if n2.num == 0 {
                                    Err(ErrV::DivisionByZero(n1))
                                } else {
                                    match reduced(crate::rational::raw_div(n1, n2)) {
                                        Some(q) => Ok(
                                            acc.drop_last().drop_last().push(Token::Var(q, d1)),
                                        ),
                                        None => Err(ErrV::Overflow),
                                    }
                                }
                            },
                            _ => Err(ErrV::BoundaryToken(t)),
                        }
                    }
                },
                (Token::Cmp(_), _) => {
                    if acc.len() < 2 {
                        Err(ErrV::BoundaryToken(t))
                    } else {
                        let prev = acc[acc.len() - 2];
                        if is_term(prev) && is_term(t) {
                            Ok(acc.push(t))
                        } else {
                            Err(ErrV::MisplacedComparison(last))
                        }
                    }
                },
                _ => Ok(acc.push(t)),
            }
        }
    }
}

/// The normalizer's fold over `ts[k..)`, starting from the stack `acc`.
pub open spec fn reduce_run(acc: Seq<Token>, ts: Seq<Token>, k: int) -> Result<Seq<Token>, ErrV>
    decreases ts.len() - k,
        when 0 <= k <= ts.len()
{
    if k >= ts.len() {
        Ok(acc)
    } else {
        match reduce_step(acc, ts[k]) {
            Ok(acc2) => reduce_run(acc2, ts, k + 1),
            Err(e) => Err(e),
        }
    }
}

/// The whole normalizer: the fold, then the check that the finished stack
/// ends with a term.
pub open spec fn spec_reduce(ts: Seq<Token>) -> Result<Seq<Token>, ErrV> {
    match reduce_run(Seq::<Token>::empty(), ts, 0) {
        Ok(acc) => if acc.len() == 0 {
            Err(ErrV::EmptyExpression)
        } else if is_term(acc.last()) {
            Ok(acc)
        } else {
            Err(ErrV::BoundaryToken(acc.last()))
        },
        Err(e) => Err(e),
    }
}

/// Normalizes a token list into a reduced sequence: implicit products and
/// explicit `*`/`/` are folded into single terms, and the result must start
/// and end with a term, alternate categories, and keep at most the one
/// comparison. The result is exactly what `spec_reduce` yields.
pub fn reduce_tokens(tokens: Vec<Token>) -> (r: Result<Vec<Token>, Error>)
    requires
        crate::tokens_wf(tokens@),
    ensures
        match r {
            Ok(list) => spec_reduce(tokens@) == Ok::<Seq<Token>, ErrV>(list@) && crate::tokens_wf(
                list@,
            ),
            Err(e) => spec_reduce(tokens@) == Err::<Seq<Token>, ErrV>(error_view(e)),
        },
{
    let ghost ts = tokens@;
    let mut list: Vec<Token> = Vec::new();
    let mut k: usize = 0;
    while k < tokens.len()
        invariant
            0 <= k <= ts.len(),
            ts == tokens@,
            crate::tokens_wf(ts),
            crate::tokens_wf(list@),
            reduce_run(Seq::<Token>::empty(), ts, 0) == reduce_run(list@, ts, k as int),
        decreases ts.len() - k,
    {
        let current = tokens[k];
        let ghost acc0 = list@;
        proof {
            assert(crate::token_wf(ts[k as int]));
            if acc0.len() > 0 {
                assert(crate::token_wf(acc0[acc0.len() - 1]));
            }
            if acc0.len() > 1 {
                assert(crate::token_wf(acc0[acc0.len() - 2]));
            }
        }
        if list.len() == 0 {
            if !current.is_variable() {
                return Err(Error::BoundaryToken(current));
            }
            list.push(current);
            proof {
                assert(list@ =~= seq![current]);
            }
        } else {
            let last = list[list.len() - 1];
            if last.is_variable() && current.is_variable() {
                match (last, current) {
                    (Token::Var(n1, d1), Token::Var(n2, d2)) => {
                        if d1 != 0 {
                            return Err(Error::CannotMultiply(last, current));
                        }
                        match crate::do_op(n1, n2, &Operator::Mult) {
                            Ok(q) => {
                                list.pop();
                                list.push(Token::Var(q, d2));
                                proof {
                                    assert(list@ =~= acc0.drop_last().push(Token::Var(q, d2)));
                                }
                            },
                            Err(_) => {
                                return Err(Error::Overflow);
                            },
                        }
                    },
                    _ => {
                        return Err(Error::BoundaryToken(current));
                    },
                }
                proof {
                    assert(reduce_step(acc0, ts[k as int]) == Ok::<Seq<Token>, ErrV>(list@));
                }
                k = k + 1;
                continue;
            }
            if last.same_type_as(&current) {
                return Err(Error::AdjacentTokens(current, last));
            }
            match (last, current) {
                (Token::Operator(Operator::Mult), Token::Var(n2, d2)) => {
                    if list.len() < 2 {
                        return Err(Error::BoundaryToken(current));
                    }
                    let prev = list[list.len() - 2];
                    match prev {
                        Token::Var(n1, d1) => {
                            if d1 > 0 && d2 > 0 {
                                return Err(Error::CannotMultiply(prev, current));
                            }
                            match crate::do_op(n1, n2, &Operator::Mult) {
                                Ok(q) => {
                                    list.pop();
                                    list.pop();
                                    list.push(Token::Var(q, d1 + d2));
                                    proof {
                                        assert(list@ =~= acc0.drop_last().drop_last().push(
                                            Token::Var(q, ((d1 + d2) as int) as u8),
                                        ));
                                    }
                                },
                                Err(_) => {
                                    return Err(Error::Overflow);
                                },
                            }
                        },
                        _ => {
                            return Err(Error::BoundaryToken(current));
                        },
                    }
                },
                (Token::Operator(Operator::Div), Token::Var(n2, d2)) => {
                    if list.len() < 2 {
                        return Err(Error::BoundaryToken(current));
                    }
                    let prev = list[list.len() - 2];
                    match prev {
                        Token::Var(n1, d1) => {
                            if d2 > 0 {
                                return Err(Error::CannotDivide(prev, current));
                            }
                            match crate::do_op(n1, n2, &Operator::Div) {
                                Ok(q) => {
                                    list.pop();
                                    list.pop();
                                    list.push(Token::Var(q, d1));
                                    proof {
                                        assert(list@ =~= acc0.drop_last().drop_last().push(
                                            Token::Var(q, d1),
                                        ));
                                    }
                                },
                                Err(e) => {
                                    return Err(e);
                                },
                            }
                        },
                        _ => {
                            return Err(Error::BoundaryToken(current));
                        },
                    }
                },
                (Token::Cmp(_), _) => {
                    if list.len() < 2 {
                        return Err(Error::BoundaryToken(current));
                    }
                    let prev = list[list.len() - 2];
                    if prev.is_variable() && current.is_variable() {
                        list.push(current);
                    } else {
                        return Err(Error::MisplacedComparison(last));
                    }
                },
                _ => {
                    list.push(current);
                },
            }
        }
        proof {
            assert(reduce_step(acc0, ts[k as int]) == Ok::<Seq<Token>, ErrV>(list@));
        }
        k = k + 1;
    }
    if list.len() == 0 {
        return Err(Error::EmptyExpression);
    }
    let last = list[list.len() - 1];
    if last.is_variable() {
        Ok(list)
    } else {
        Err(Error::BoundaryToken(last))
    }
}

/// Whether two tokens fall in the same structural category: both terms,
/// both operators, or both comparisons.
pub open spec fn same_plain_category(a: Token, b: Token) -> bool {
    (a is Var && b is Var) || (a is Operator && b is Operator) || (a is Cmp && b is Cmp)
}

/// How many comparison tokens a sequence holds.
pub open spec fn cmp_count(acc: Seq<Token>) -> int
    decreases acc.len(),
{
    if acc.len() == 0 {
        0
    } else {
        cmp_count(acc.drop_last()) + if acc.last() is Cmp {
            1int
        } else {
            0int
        }
    }
}

/// How many comparison tokens `ts[k..)` holds.
pub open spec fn cmp_count_from(ts: Seq<Token>, k: int) -> int
    decreases ts.len() - k,
        when 0 <= k <= ts.len()
{
    if k >= ts.len() {
        0
    } else {
        (if ts[k] is Cmp {
            1int
        } else {
            0int
        }) + cmp_count_from(ts, k + 1)
    }
}

/// The structural invariant of a reduced sequence: nonempty, bounded by
/// terms, alternating categories, at most one comparison.
pub open spec fn reduced_shape(ts: Seq<Token>) -> bool {
    &&& ts.len() > 0
    &&& is_term(ts[0])
    &&& is_term(ts[ts.len() - 1])
    &&& forall|i: int| 0 <= i < ts.len() - 1 ==> !same_plain_category(#[trigger] ts[i], ts[i + 1])
    &&& cmp_count(ts) <= 1
}

/// Mid-fold invariant of the normalizer's stack: starts with a term and
/// never holds two adjacent tokens of one category.
spec fn stack_ok(acc: Seq<Token>) -> bool {
    &&& acc.len() > 0 ==> is_term(acc[0])
    &&& forall|i: int| 0 <= i < acc.len() - 1 ==> !same_plain_category(#[trigger] acc[i], acc[i + 1])
}

/// One normalizer step keeps the stack invariant, keeps the stack nonempty,
/// and adds at most the incoming comparison to the comparison count.
proof fn lemma_step_shape(acc: Seq<Token>, t: Token)
    requires
        stack_ok(acc),
    ensures
        reduce_step(acc, t) matches Ok(acc2) ==> {
            &&& stack_ok(acc2)
            &&& acc2.len() > 0
            &&& cmp_count(acc2) <= cmp_count(acc) + if t is Cmp {
                1int
            } else {
                0int
            }
        },
{
    if reduce_step(acc, t) is Ok {
        let acc2 = reduce_step(acc, t)->Ok_0;
        if acc.len() == 0 {
            assert(acc2 =~= seq![t]);
            assert(acc2.drop_last() =~= Seq::<Token>::empty());
            assert(cmp_count(Seq::<Token>::empty()) == 0);
            assert(acc2.last() == t);
            assert(cmp_count(acc2) == 0 + if t is Cmp { 1int } else { 0int });
            assert(cmp_count(acc) == 0);
        } else {
            let last = acc.last();
            match (last, t) {
                (Token::Var(n1, d1), Token::Var(n2, d2)) => {
                    let q = reduced(crate::rational::raw_mul(n1, n2))->Some_0;
                    let nt = Token::Var(q, d2);
                    assert(acc2 =~= acc.drop_last().push(nt));
                    assert(acc2.drop_last() =~= acc.drop_last());
                    assert(acc2.last() == nt);
                    assert(cmp_count(acc2) == cmp_count(acc.drop_last()));
                    assert(cmp_count(acc) == cmp_count(acc.drop_last()));
                    assert forall|i: int| 0 <= i < acc2.len() - 1 implies !same_plain_category(
                        #[trigger] acc2[i],
                        acc2[i + 1],
                    ) by {
                        if i < acc2.len() - 2 {
                            assert(acc2[i] == acc[i] && acc2[i + 1] == acc[i + 1]);
                        } else {
                            assert(acc2[i] == acc[i]);
                            assert(!same_plain_category(acc[i], acc[i + 1]));
                        }
                    }
                },
                (Token::Operator(Operator::Mult), Token::Var(n2, d2)) => {
                    assert(acc2.last() is Var);
                    lemma_step_fold_two(acc, acc2.last());
                    assert(acc2 =~= acc.drop_last().drop_last().push(acc2.last()));
                    assert(cmp_count(acc2) <= cmp_count(acc));
                },
                (Token::Operator(Operator::Div), Token::Var(n2, d2)) => {
                    assert(acc2.last() is Var);
                    lemma_step_fold_two(acc, acc2.last());
                    assert(acc2 =~= acc.drop_last().drop_last().push(acc2.last()));
                    assert(cmp_count(acc2) <= cmp_count(acc));
                },
                (Token::Cmp(_), _) => {
                    assert(acc2 =~= acc.push(t));
                    assert(acc2.drop_last() =~= acc);
                    assert(acc2.last() == t);
                    assert(cmp_count(acc2) == cmp_count(acc));
                    assert(!same_plain_category(acc2[acc2.len() - 2], acc2[acc2.len() - 1]));
                },
                _ => {
                    assert(acc2 =~= acc.push(t));
                    assert(acc2.drop_last() =~= acc);
                    assert(acc2.last() == t);
                    assert(cmp_count(acc2) == cmp_count(acc) + if t is Cmp { 1int } else { 0int });
                    assert(!same_plain_category(acc2[acc2.len() - 2], acc2[acc2.len() - 1]));
                },
            }
        }
        assert(stack_ok(acc2));
        assert(acc2.len() > 0);
        assert(cmp_count(acc2) <= cmp_count(acc) + if t is Cmp { 1int } else { 0int });
    }
}

/// The common shape argument for the two arms that pop an operator and the
/// term below it and push the folded term `nt`.
proof fn lemma_step_fold_two(acc: Seq<Token>, nt: Token)
    requires
        stack_ok(acc),
        acc.len() >= 2,
        acc.last() is Operator,
        acc[acc.len() - 2] is Var,
        nt is Var,
    ensures
        stack_ok(acc.drop_last().drop_last().push(nt)),
        acc.drop_last().drop_last().push(nt).len() == acc.len() - 1,
        cmp_count(acc.drop_last().drop_last().push(nt)) <= cmp_count(acc),
{
    let pre = acc.drop_last().drop_last();
    let acc2 = pre.push(nt);
    assert(acc2.drop_last() =~= pre);
    assert(acc.drop_last().last() == acc[acc.len() - 2]);
    assert(cmp_count(acc) == cmp_count(acc.drop_last()));
    assert(cmp_count(acc.drop_last()) == cmp_count(pre));
    assert(acc2.last() == nt);
    assert(cmp_count(acc2) == cmp_count(pre));
    assert forall|i: int| 0 <= i < acc2.len() - 1 implies !same_plain_category(
        #[trigger] acc2[i],
        acc2[i + 1],
    ) by {
        if i < acc2.len() - 2 {
            assert(acc2[i] == acc[i] && acc2[i + 1] == acc[i + 1]);
        } else {
            assert(acc2[i] == acc[i]);
            assert(!same_plain_category(acc[i], acc[i + 1]));
        }
    }
}

/// The fold keeps the stack invariant and accumulates at most the incoming
/// comparisons.
proof fn lemma_run_shape(acc: Seq<Token>, ts: Seq<Token>, k: int)
    requires
        stack_ok(acc),
        0 <= k <= ts.len(),
    ensures
        reduce_run(acc, ts, k) matches Ok(res) ==> {
            &&& stack_ok(res)
            &&& res.len() >= if acc.len() > 0 {
                1int
            } else {
                0int
            }
            &&& cmp_count(res) <= cmp_count(acc) + cmp_count_from(ts, k)
        },
    decreases ts.len() - k,
{
    if k < ts.len() {
        lemma_step_shape(acc, ts[k]);
        match reduce_step(acc, ts[k]) {
            Ok(acc2) => {
                lemma_run_shape(acc2, ts, k + 1);
            },
            Err(_) => {},
        }
    }
}

/// LAW: a sequence the normalizer accepts is nonempty, starts and ends with
/// a term, never holds two adjacent tokens of one structural category, and
/// holds no more comparisons than its input did.
pub proof fn lemma_reduced_sequence_shape(ts: Seq<Token>)
    ensures
        spec_reduce(ts) matches Ok(res) ==> {
            &&& res.len() > 0
            &&& is_term(res[0])
            &&& is_term(res[res.len() - 1])
            &&& forall|i: int|
                0 <= i < res.len() - 1 ==> !same_plain_category(#[trigger] res[i], res[i + 1])
            &&& cmp_count(res) <= cmp_count_from(ts, 0)
            &&& cmp_count_from(ts, 0) <= 1 ==> reduced_shape(res)
        },
{
    lemma_run_shape(Seq::<Token>::empty(), ts, 0);
}

/// The rational zero.
pub open spec fn rat_zero() -> Rat {
    Rat { num: 0, den: 1 }
}

/// The rational minus one, the sign in force after a comparison.
pub open spec fn rat_neg_one() -> Rat {
    Rat { num: -1i64, den: 1 }
}

/// The extractor's running state: the coefficient slots for degrees zero,
/// one and two, the sign in force, and the pending operator.
#[derive(Clone, Copy, Debug)]
pub struct ExtractState {
    pub c0: Rat,
    pub c1: Rat,
    pub c2: Rat,
    pub sign: Rat,
    pub op: Operator,
}

/// The extractor's initial state: all slots zero, positive sign, addition.
pub open spec fn extract_start() -> ExtractState {
    ExtractState {
        c0: rat_zero(),
        c1: rat_zero(),
        c2: rat_zero(),
        sign: rat_one(),
        op: Operator::Add,
    }
}

/// Validity of an extractor state.
pub open spec fn extract_state_wf(st: ExtractState) -> bool {
    st.c0.wf() && st.c1.wf() && st.c2.wf() && st.sign.wf()
}

/// The extractor's fold: a term contributes its value times the sign in
/// force, combined into its degree's slot with the pending operator; `+` and
/// `-` set the pending operator; a comparison flips the sign for all later
/// terms and leaves the operator untouched; anything else is skipped.
pub open spec fn extract_run(ts: Seq<Token>, st: ExtractState) -> Result<(Rat, Rat, Rat), ErrV>
    decreases ts.len(),
{
    if ts.len() == 0 {
        Ok((st.c0, st.c1, st.c2))
    } else {
        match ts[0] {
            Token::Var(n, d) => match reduced(crate::rational::raw_mul(n, st.sign)) {
                None => Err(ErrV::Overflow),
                Some(v) => {
                    let slot = if d == 0 {
                        st.c0
                    } else if d == 1 {
                        st.c1
                    } else {
                        st.c2
                    };
                    match crate::spec_do_op(slot, v, st.op) {
                        Ok(w) => {
                            let st2 = if d == 0 {
                                ExtractState { c0: w, ..st }
                            } else if d == 1 {
                                ExtractState { c1: w, ..st }
                            } else {
                                ExtractState { c2: w, ..st }
                            };
                            extract_run(ts.drop_first(), st2)
                        },
                        Err(e) => Err(error_view(e)),
                    }
                },
            },
            Token::Operator(Operator::Add) => extract_run(
                ts.drop_first(),
                ExtractState { op: Operator::Add, ..st },
            ),
            Token::Operator(Operator::Sub) => extract_run(
                ts.drop_first(),
                ExtractState { op: Operator::Sub, ..st },
            ),
            Token::Cmp(_) => extract_run(ts.drop_first(), ExtractState { sign: rat_neg_one(), ..st }),
            _ => extract_run(ts.drop_first(), st),
        }
    }
}

/// Accumulates the coefficients of a reduced sequence into the vector
/// `[x^2, x^1, x^0]`, every term on the right of a comparison counting with
/// its sign flipped. The result is exactly what `extract_run` yields from
/// the initial state.
pub fn get_coefficients(tokens: &Vec<Token>) -> (r: Result<Vec<Rat>, Error>)
    requires
        crate::tokens_wf(tokens@),
    ensures
        match r {
            Ok(coef) => {
                &&& coef@.len() == 3
                &&& extract_run(tokens@, extract_start()) == Ok::<(Rat, Rat, Rat), ErrV>(
                    (coef@[2], coef@[1], coef@[0]),
                )
                &&& coef@[0].wf()
                &&& coef@[1].wf()
                &&& coef@[2].wf()
            },
            Err(e) => extract_run(tokens@, extract_start()) == Err::<(Rat, Rat, Rat), ErrV>(
                error_view(e),
            ),
        },
{
    let ghost ts = tokens@;
    let mut c0 = Rat { num: 0, den: 1 };
    let mut c1 = Rat { num: 0, den: 1 };
    let mut c2 = Rat { num: 0, den: 1 };
    let mut sign = Rat { num: 1, den: 1 };
    let mut op = Operator::Add;
    let mut k: usize = 0;
    proof {
        assert(ts.skip(0) =~= ts);
        assert(ExtractState { c0, c1, c2, sign, op } == extract_start());
    }
    while k < tokens.len()
        invariant
            0 <= k <= ts.len(),
            ts == tokens@,
            crate::tokens_wf(ts),
            c0.wf() && c1.wf() && c2.wf() && sign.wf(),
            extract_run(ts, extract_start()) == extract_run(
                ts.skip(k as int),
                ExtractState { c0, c1, c2, sign, op },
            ),
        decreases ts.len() - k,
    {
        proof {
            assert(ts.skip(k as int).drop_first() =~= ts.skip(k + 1));
            assert(ts.skip(k as int)[0] == ts[k as int]);
            assert(crate::token_wf(ts[k as int]));
        }
        let t = tokens[k];
        match t {
            Token::Var(n, d) => {
                let v = match crate::rational::rat_mul(n, sign) {
                    Some(v) => v,
                    None => {
                        return Err(Error::Overflow);
                    },
                };
                let slot = if d == 0 {
                    c0
                } else if d == 1 {
                    c1
                } else {
                    c2
                };
                match crate::do_op(slot, v, &op) {
                    Ok(w) => {
                        if d == 0 {
                            c0 = w;
                        } else if d == 1 {
                            c1 = w;
                        } else {
                            c2 = w;
                        }
                    },
                    Err(e) => {
                        return Err(e);
                    },
                }
            },
            Token::Operator(Operator::Add) => {
                op = Operator::Add;
            },
            Token::Operator(Operator::Sub) => {
                op = Operator::Sub;
            },
            Token::Cmp(_) => {
                sign = Rat { num: -1, den: 1 };
            },
            _ => {},
        }
        k = k + 1;
    }
    proof {
        assert(ts.skip(ts.len() as int) =~= Seq::<Token>::empty());
    }
    let coef: Vec<Rat> = vec![c2, c1, c0];
    Ok(coef)
}

/// The tokens with every term after the first comparison negated and the
/// comparison itself removed: the left-hand form of moving the right side
/// over.
pub open spec fn negate_after_cmp(ts: Seq<Token>, seen: bool) -> Seq<Token>
    decreases ts.len(),
{
    if ts.len() == 0 {
        Seq::empty()
    } else {
        match ts[0] {
            Token::Cmp(_) => negate_after_cmp(ts.drop_first(), true),
            Token::Var(n, d) => (if seen {
                seq![Token::Var(crate::rational::rat_neg(n), d)]
            } else {
                seq![ts[0]]
            }) + negate_after_cmp(ts.drop_first(), seen),
            _ => seq![ts[0]] + negate_after_cmp(ts.drop_first(), seen),
        }
    }
}

/// Extraction with the sign of `seen` in force equals extraction of the
/// transformed tokens with the positive sign.
proof fn lemma_extract_negate(ts: Seq<Token>, st: ExtractState, seen: bool)
    requires
        crate::tokens_wf(ts),
        st.sign == if seen {
            rat_neg_one()
        } else {
            rat_one()
        },
    ensures
        extract_run(negate_after_cmp(ts, seen), ExtractState { sign: rat_one(), ..st })
            == extract_run(ts, st),
    decreases ts.len(),
{
    if ts.len() > 0 {
        let rest = ts.drop_first();
        assert forall|i: int| 0 <= i < rest.len() implies crate::token_wf(#[trigger] rest[i]) by {
            assert(rest[i] == ts[i + 1]);
            assert(crate::token_wf(ts[i + 1]));
        }
        assert(crate::token_wf(ts[0]));
        match ts[0] {
            Token::Cmp(_) => {
                lemma_extract_negate(rest, ExtractState { sign: rat_neg_one(), ..st }, true);
            },
            Token::Var(n, d) => {
                let nn = if seen {
                    crate::rational::rat_neg(n)
                } else {
                    n
                };
                assert(crate::rational::raw_mul(nn, rat_one()) == crate::rational::raw_mul(
                    n,
                    st.sign,
                ));
                let tr = negate_after_cmp(ts, seen);
                assert(tr[0] == Token::Var(nn, d));
                assert(tr.drop_first() =~= negate_after_cmp(rest, seen));
                match reduced(crate::rational::raw_mul(n, st.sign)) {
                    None => {},
                    Some(v) => {
                        let slot = if d == 0 {
                            st.c0
                        } else if d == 1 {
                            st.c1
                        } else {
                            st.c2
                        };
                        match crate::spec_do_op(slot, v, st.op) {
                            Ok(w) => {
                                let st2 = if d == 0 {
                                    ExtractState { c0: w, ..st }
                                } else if d == 1 {
                                    ExtractState { c1: w, ..st }
                                } else {
                                    ExtractState { c2: w, ..st }
                                };
                                lemma_extract_negate(rest, st2, seen);
                            },
                            Err(_) => {},
                        }
                    },
                }
            },
            _ => {
                let tr = negate_after_cmp(ts, seen);
                assert(tr[0] == ts[0]);
                assert(tr.drop_first() =~= negate_after_cmp(rest, seen));
                match ts[0] {
                    Token::Operator(Operator::Add) => {
                        lemma_extract_negate(rest, ExtractState { op: Operator::Add, ..st }, seen);
                    },
                    Token::Operator(Operator::Sub) => {
                        lemma_extract_negate(rest, ExtractState { op: Operator::Sub, ..st }, seen);
                    },
                    _ => {
                        lemma_extract_negate(rest, st, seen);
                    },
                }
            },
        }
    }
}

/// LAW (sign consistency of the extractor): negating every term after the
/// comparison and extracting the sequence without the comparison yields
/// exactly the coefficients of the original sequence.
pub proof fn lemma_extractor_sign_consistency(ts: Seq<Token>)
    requires
        crate::tokens_wf(ts),
    ensures
        extract_run(negate_after_cmp(ts, false), extract_start()) == extract_run(
            ts,
            extract_start(),
        ),
{
    lemma_extract_negate(ts, extract_start(), false);
    assert(ExtractState { sign: rat_one(), ..extract_start() } == extract_start());
}

} // verus!
