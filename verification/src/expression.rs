//! Rates typed as arithmetic expressions: integers and decimals (with an
//! optional leading minus), the operators `+ - * /` and parentheses, read with
//! the shunting-yard algorithm into postfix order and then evaluated exactly.
use vstd::prelude::*;
use vstd::string::StrSliceExecFns;
use crate::rational::{iabs, qadd, qsub, qmul, qdiv, qcanon, lemma_qcanon, gcd, normalized};
use crate::fractional_number::{FractionalNumber, add_fits, sub_fits, mul_fits, div_fits, i64_max, fraction_text, signed_fits};
use crate::text::{concat, string_from_chars, nat_to_decimal, int_to_decimal, digit_char};

verus! {

/// Whether `char::is_numeric` holds of `c` (a Unicode number category).
pub uninterp spec fn unicode_numeric(c: char) -> bool;

/// Whether `c` is whitespace, as `char::is_whitespace` tests: the Unicode
/// `White_Space` property, which holds of U+0009 to U+000D, the space,
/// U+0085, U+00A0, U+1680, U+2000 to U+200A, U+2028, U+2029, U+202F, U+205F
/// and U+3000.
fn is_whitespace(c: char) -> (r: bool)
    ensures
        r == is_space(c),
{
    let v = c as u32;
    (9 <= v && v <= 13) || v == 32 || v == 0x85 || v == 0xA0 || v == 0x1680 || (0x2000 <= v && v <= 0x200A)
        || v == 0x2028 || v == 0x2029 || v == 0x202F || v == 0x205F || v == 0x3000
}

/// `char::is_numeric`: the Unicode number categories (`Nd`, `Nl`, `No`),
/// which among ASCII characters hold of the digits `'0'` to `'9'` only.
#[verifier::external_body]
fn is_numeric(c: char) -> (r: bool)
    ensures
        r == unicode_numeric(c),
        (c as u32) < 128 ==> (r <==> 48 <= c as u32 <= 57),
{
    c.is_numeric()
}

/// Whether `c` has the Unicode `White_Space` property: U+0009 to U+000D,
/// the space, U+0085, U+00A0, U+1680, U+2000 to U+200A, U+2028, U+2029,
/// U+202F, U+205F and U+3000.
pub open spec fn is_space(c: char) -> bool {
    let v = c as u32;
    ||| 9 <= v <= 13
    ||| v == 32 || v == 0x85 || v == 0xA0 || v == 0x1680
    ||| 0x2000 <= v <= 0x200A
    ||| v == 0x2028 || v == 0x2029 || v == 0x202F || v == 0x205F || v == 0x3000
}

/// Whether `c` is numeric: among ASCII characters the digits, elsewhere the
/// Unicode number categories.
pub open spec fn is_number_char(c: char) -> bool {
    if (c as u32) < 128 {
        48 <= c as u32 <= 57
    } else {
        unicode_numeric(c)
    }
}

/// The whitespace flags of a text, character by character.
pub open spec fn whitespace_flags(cs: Seq<char>) -> Seq<bool> {
    Seq::new(cs.len(), |i: int| is_space(cs[i]))
}

/// The numeric flags of a text, character by character.
pub open spec fn numeric_flags(cs: Seq<char>) -> Seq<bool> {
    Seq::new(cs.len(), |i: int| is_number_char(cs[i]))
}

/// A lexeme of the postfix form: a numeral or a binary operator.
pub enum Lexeme {
    Number(Seq<char>),
    Operator(char),
}

/// A token of the postfix form, as the parser holds it.
pub enum Token {
    Number(Vec<char>),
    Operator(char),
}

pub open spec fn lexeme(t: Token) -> Lexeme {
    match t {
        Token::Number(v) => Lexeme::Number(v@),
        Token::Operator(c) => Lexeme::Operator(c),
    }
}

pub open spec fn lexemes(ts: Seq<Token>) -> Seq<Lexeme> {
    ts.map_values(|t: Token| lexeme(t))
}

/// The lexeme of operator `c`.
pub open spec fn operator_lexeme(c: char) -> Lexeme {
    Lexeme::Operator(c)
}

pub open spec fn is_operator(c: char) -> bool {
    c == '+' || c == '-' || c == '*' || c == '/'
}

/// Binding strength: `*` and `/` bind tighter than `+` and `-`.
pub open spec fn precedence(c: char) -> int {
    if c == '+' || c == '-' {
        1
    } else if c == '*' || c == '/' {
        2
    } else {
        0
    }
}

/// A character that continues a numeral: a numeric character or a decimal point.
pub open spec fn numeral_char(cs: Seq<char>, num: Seq<bool>, i: int) -> bool {
    num[i] || cs[i] == '.'
}

/// Index of the last non-space character before `i`, or -1 if there is none.
pub open spec fn last_nonspace(space: Seq<bool>, i: int) -> int
    decreases i,
{
    if i <= 0 {
        -1
    } else if !space[i - 1] {
        i - 1
    } else {
        last_nonspace(space, i - 1)
    }
}

/// A `-` at `i` is the sign of a numeral: a numeral character follows it, and
/// it stands at the start or after an operator or an opening parenthesis.
pub open spec fn unary_minus_at(cs: Seq<char>, space: Seq<bool>, num: Seq<bool>, i: int) -> bool {
    let j = last_nonspace(space, i);
    &&& cs[i] == '-'
    &&& i + 1 < cs.len()
    &&& numeral_char(cs, num, i + 1)
    &&& (j < 0 || is_operator(cs[j]) || cs[j] == '(')
}

/// End of the run of numeral characters that starts at `k`.
pub open spec fn numeral_end(cs: Seq<char>, num: Seq<bool>, k: int) -> int
    decreases cs.len() - k,
{
    if 0 <= k < cs.len() && numeral_char(cs, num, k) {
        numeral_end(cs, num, k + 1)
    } else {
        k
    }
}

pub proof fn lemma_numeral_end(cs: Seq<char>, num: Seq<bool>, k: int)
    requires
        0 <= k,
    ensures
        k <= numeral_end(cs, num, k),
        numeral_end(cs, num, k) <= if k <= cs.len() { cs.len() as int } else { k },
    decreases cs.len() - k,
{
    if 0 <= k < cs.len() && numeral_char(cs, num, k) {
        lemma_numeral_end(cs, num, k + 1);
    }
}

/// Moves operators that bind at least as tightly as `c` from the stack to the
/// output, stopping at an opening parenthesis.
pub open spec fn pop_for(ops: Seq<char>, out: Seq<Lexeme>, c: char) -> (Seq<char>, Seq<Lexeme>)
    decreases ops.len(),
{
    if ops.len() > 0 && ops.last() != '(' && precedence(ops.last()) >= precedence(c) {
        pop_for(ops.drop_last(), out.push(operator_lexeme(ops.last())), c)
    } else {
        (ops, out)
    }
}

/// Moves operators from the stack to the output down to an opening parenthesis.
pub open spec fn pop_to_open(ops: Seq<char>, out: Seq<Lexeme>) -> (Seq<char>, Seq<Lexeme>)
    decreases ops.len(),
{
    if ops.len() > 0 && ops.last() != '(' {
        pop_to_open(ops.drop_last(), out.push(operator_lexeme(ops.last())))
    } else {
        (ops, out)
    }
}

/// Moves the remaining operators to the output; `None` on an unclosed parenthesis.
pub open spec fn flush(ops: Seq<char>, out: Seq<Lexeme>) -> Option<Seq<Lexeme>>
    decreases ops.len(),
{
    if ops.len() == 0 {
        Some(out)
    } else if ops.last() == '(' {
        None
    } else {
        flush(ops.drop_last(), out.push(operator_lexeme(ops.last())))
    }
}

/// The postfix form of the text from position `i` on, given the operator stack
/// and the output so far; `None` when the parentheses do not match. Spaces and
/// characters that are neither part of a numeral, an operator nor a parenthesis
/// are skipped.
pub open spec fn scan(
    cs: Seq<char>,
    space: Seq<bool>,
    num: Seq<bool>,
    i: int,
    ops: Seq<char>,
    out: Seq<Lexeme>,
) -> Option<Seq<Lexeme>>
    decreases cs.len() - i,
{
    if i < 0 || i >= cs.len() {
        flush(ops, out)
    } else if space[i] {
        scan(cs, space, num, i + 1, ops, out)
    } else if numeral_char(cs, num, i) || unary_minus_at(cs, space, num, i) {
        let k = if unary_minus_at(cs, space, num, i) { i + 1 } else { i };
        let e = numeral_end(cs, num, k);
        proof {
            lemma_numeral_end(cs, num, k + 1);
        }
        scan(cs, space, num, e, ops, out.push(Lexeme::Number(cs.subrange(i, e))))
    } else if is_operator(cs[i]) {
        let (o, t) = pop_for(ops, out, cs[i]);
        scan(cs, space, num, i + 1, o.push(cs[i]), t)
    } else if cs[i] == '(' {
        scan(cs, space, num, i + 1, ops.push('('), out)
    } else if cs[i] == ')' {
        let (o, t) = pop_to_open(ops, out);
        if o.len() == 0 {
            None
        } else {
            scan(cs, space, num, i + 1, o.drop_last(), t)
        }
    } else {
        scan(cs, space, num, i + 1, ops, out)
    }
}

pub open spec fn ascii_digit(c: char) -> bool {
    '0' <= c <= '9'
}

/// Value of a run of decimal digits.
pub open spec fn digits_value(s: Seq<char>) -> int
    decreases s.len(),
{
    if s.len() == 0 {
        0
    } else {
        digits_value(s.drop_last()) * 10 + (s.last() as int - 48)
    }
}

pub open spec fn all_digits(s: Seq<char>) -> bool {
    forall|j: int| 0 <= j < s.len() ==> ascii_digit(#[trigger] s[j])
}

/// `i64::from_str`: an optional `+` or `-`, then one or more ASCII digits, whose
/// value lies within `i64`.
pub open spec fn parse_i64(s: Seq<char>) -> Option<int> {
    let signed = s.len() > 0 && (s[0] == '-' || s[0] == '+');
    let body = if signed { s.drop_first() } else { s };
    let v = if s.len() > 0 && s[0] == '-' { -digits_value(body) } else { digits_value(body) };
    if body.len() > 0 && all_digits(body) && -i64_max() - 1 <= v <= i64_max() {
        Some(v)
    } else {
        None
    }
}

pub open spec fn pow10(k: nat) -> int
    decreases k,
{
    if k == 0 {
        1
    } else {
        10 * pow10((k - 1) as nat)
    }
}

/// Index of the first `.` at or after `k`, or -1.
pub open spec fn dot_from(t: Seq<char>, k: int) -> int
    decreases t.len() - k,
{
    if k < 0 || k >= t.len() {
        -1
    } else if t[k] == '.' {
        k
    } else {
        dot_from(t, k + 1)
    }
}

pub open spec fn invalid_integer(t: Seq<char>) -> Seq<char> {
    "Invalid integer: "@ + t
}

pub open spec fn invalid_integer_part(t: Seq<char>) -> Seq<char> {
    "Invalid integer part: "@ + t
}

pub open spec fn invalid_fractional_part(t: Seq<char>) -> Seq<char> {
    "Invalid fractional part: "@ + t
}

pub open spec fn out_of_range(t: Seq<char>) -> Seq<char> {
    "Number out of range: "@ + t
}

/// The value of a numeral: an integer, or a decimal `i.f` read as
/// `i + f / 10^k` (with the sign of a negative integer part) for `k` digits after
/// the point. A decimal whose numerator or denominator leaves `i64` is refused.
pub open spec fn numeral_value(t: Seq<char>) -> Result<(int, int), Seq<char>> {
    let d = dot_from(t, 0);
    if d < 0 {
        match parse_i64(t) {
            Some(n) => Ok((n, 1)),
            None => Err(invalid_integer(t)),
        }
    } else {
        let ip = t.subrange(0, d);
        let fp = t.subrange(d + 1, t.len() as int);
        let int_part = if d == 0 { Some(0int) } else { parse_i64(ip) };
        if int_part is None {
            Err(invalid_integer_part(ip))
        } else if parse_i64(fp) is None {
            Err(invalid_fractional_part(fp))
        } else {
            let a = int_part.unwrap();
            let f = parse_i64(fp).unwrap();
            let den = pow10(fp.len());
            let n = if a < 0 { -(iabs(a) * den + f) } else { a * den + f };
            if fp.len() <= 18 && iabs(a) * den + iabs(f) <= i64_max() {
                Ok(qcanon((n, den)))
            } else {
                Err(out_of_range(t))
            }
        }
    }
}

pub open spec fn overflow_error() -> Seq<char> {
    "Arithmetic overflow"@
}

pub open spec fn division_by_zero() -> Seq<char> {
    "Division by zero"@
}

pub open spec fn invalid_expression() -> Seq<char> {
    "Invalid expression"@
}

pub open spec fn mismatched_parentheses() -> Seq<char> {
    "Mismatched parentheses"@
}

pub open spec fn invalid_operator(c: char) -> Seq<char> {
    "Invalid operator: "@ + seq![c]
}

/// One operator applied to two reduced values; results are reduced, and a step
/// that would leave `i64` is refused.
pub open spec fn apply_operator(op: char, a: (int, int), b: (int, int)) -> Result<(int, int), Seq<char>> {
    if op == '+' {
        if add_fits(a, b) { Ok(qcanon(qadd(a, b))) } else { Err(overflow_error()) }
    } else if op == '-' {
        if sub_fits(a, b) { Ok(qcanon(qsub(a, b))) } else { Err(overflow_error()) }
    } else if op == '*' {
        if mul_fits(a, b) { Ok(qcanon(qmul(a, b))) } else { Err(overflow_error()) }
    } else if op == '/' {
        if b.0 == 0 {
            Err(division_by_zero())
        } else if div_fits(a, b) {
            Ok(qcanon(qdiv(a, b)))
        } else {
            Err(overflow_error())
        }
    } else {
        Err(invalid_operator(op))
    }
}

/// Evaluation of a postfix form from lexeme `i` on with the value stack `vals`.
pub open spec fn eval_from(ls: Seq<Lexeme>, i: int, vals: Seq<(int, int)>) -> Result<(int, int), Seq<char>>
    decreases ls.len() - i,
{
    if i < 0 || i >= ls.len() {
        if vals.len() == 1 { Ok(vals[0]) } else { Err(invalid_expression()) }
    } else {
        match ls[i] {
            Lexeme::Number(t) => match numeral_value(t) {
                Ok(v) => eval_from(ls, i + 1, vals.push(v)),
                Err(e) => Err(e),
            },
            Lexeme::Operator(c) => if vals.len() < 2 {
                Err(invalid_expression())
            } else {
                match apply_operator(c, vals[vals.len() - 2], vals[vals.len() - 1]) {
                    Ok(v) => eval_from(ls, i + 1, vals.drop_last().drop_last().push(v)),
                    Err(e) => Err(e),
                }
            },
        }
    }
}

/// The value of an expression text, given which of its characters are spaces and
/// which are numeric.
pub open spec fn expression_value(cs: Seq<char>, space: Seq<bool>, num: Seq<bool>) -> Result<(int, int), Seq<char>> {
    match scan(cs, space, num, 0, seq![], seq![]) {
        None => Err(mismatched_parentheses()),
        Some(ls) => eval_from(ls, 0, seq![]),
    }
}


pub proof fn lemma_digits_nonneg(s: Seq<char>)
    requires
        all_digits(s),
    ensures
        digits_value(s) >= 0,
    decreases s.len(),
{
    if s.len() > 0 {
        let s2 = s.drop_last();
        assert(all_digits(s2)) by {
            assert forall|j: int| 0 <= j < s2.len() implies ascii_digit(#[trigger] s2[j]) by {
                assert(s2[j] == s[j]);
            }
        }
        lemma_digits_nonneg(s2);
        assert(ascii_digit(s[s.len() - 1]));
    }
}

/// The value of a prefix of a run of digits is at most the value of the run.
pub proof fn lemma_digits_prefix(s: Seq<char>, n: int)
    requires
        all_digits(s),
        0 <= n <= s.len(),
    ensures
        0 <= digits_value(s.subrange(0, n)) <= digits_value(s),
    decreases s.len(),
{
    if n == s.len() {
        assert(s.subrange(0, n) =~= s);
        lemma_digits_nonneg(s);
    } else {
        let s2 = s.drop_last();
        assert(all_digits(s2)) by {
            assert forall|j: int| 0 <= j < s2.len() implies ascii_digit(#[trigger] s2[j]) by {
                assert(s2[j] == s[j]);
            }
        }
        lemma_digits_prefix(s2, n);
        assert(s2.subrange(0, n) =~= s.subrange(0, n));
        lemma_digits_nonneg(s2);
        assert(ascii_digit(s[s.len() - 1]));
    }
}

/// The characters of a text.
fn chars_of(s: &str) -> (r: Vec<char>)
    ensures
        r@ == s@,
{
    let n = s.unicode_len();
    let mut v: Vec<char> = Vec::new();
    let mut i: usize = 0;
    while i < n
        invariant
            i <= n,
            n == s@.len(),
            v@ == s@.subrange(0, i as int),
        decreases n - i,
    {
        v.push(s.get_char(i));
        i += 1;
        assert(v@ =~= s@.subrange(0, i as int));
    }
    assert(v@ =~= s@);
    v
}

/// The characters `t[a..b]`.
fn sub_chars(t: &Vec<char>, a: usize, b: usize) -> (r: Vec<char>)
    requires
        a <= b <= t.len(),
    ensures
        r@ == t@.subrange(a as int, b as int),
{
    let mut v: Vec<char> = Vec::new();
    let mut i: usize = a;
    while i < b
        invariant
            a <= i <= b,
            b <= t.len(),
            v@ == t@.subrange(a as int, i as int),
        decreases b - i,
    {
        v.push(t[i]);
        i += 1;
        assert(v@ =~= t@.subrange(a as int, i as int));
    }
    v
}

/// `i64::from_str` on the characters `t[from..to]`.
fn parse_int(t: &Vec<char>, from: usize, to: usize) -> (r: Option<i64>)
    requires
        from <= to <= t.len(),
    ensures
        (match r {
            Some(v) => parse_i64(t@.subrange(from as int, to as int)) == Some(v as int),
            None => parse_i64(t@.subrange(from as int, to as int)) is None,
        }),
{
    let ghost s = t@.subrange(from as int, to as int);
    let mut k: usize = from;
    let mut neg = false;
    if from < to && (t[from] == '-' || t[from] == '+') {
        neg = t[from] == '-';
        k = from + 1;
    }
    let ghost body = t@.subrange(k as int, to as int);
    assert(body =~= (if s.len() > 0 && (s[0] == '-' || s[0] == '+') { s.drop_first() } else { s }));
    assert(neg == (s.len() > 0 && s[0] == '-'));
    if k == to {
        return None;
    }
    let mut acc: u128 = 0;
    let mut j: usize = k;
    while j < to
        invariant
            k <= j <= to,
            k < to,
            to <= t.len(),
            s == t@.subrange(from as int, to as int),
            body == (if s.len() > 0 && (s[0] == '-' || s[0] == '+') { s.drop_first() } else { s }),
            neg == (s.len() > 0 && s[0] == '-'),
            body == t@.subrange(k as int, to as int),
            acc as int == digits_value(t@.subrange(k as int, j as int)),
            all_digits(t@.subrange(k as int, j as int)),
            acc <= 0x8000_0000_0000_0000,
        decreases to - j,
    {
        let c = t[j];
        let ghost pre = t@.subrange(k as int, j as int);
        let ghost next = t@.subrange(k as int, j as int + 1);
        assert(next.drop_last() =~= pre);
        assert(next.last() == c);
        assert(body[j - k] == c);
        if !('0' <= c && c <= '9') {
            assert(!all_digits(body));
            return None;
        }
        let d: u128 = (c as u32 - 48) as u128;
        acc = acc * 10 + d;
        assert(all_digits(next)) by {
            assert forall|i: int| 0 <= i < next.len() implies ascii_digit(#[trigger] next[i]) by {
                if i < pre.len() {
                    assert(next[i] == pre[i]);
                }
            }
        }
        if acc > 0x8000_0000_0000_0000 {
            proof {
                if all_digits(body) {
                    lemma_digits_prefix(body, j - k + 1);
                    assert(body.subrange(0, j - k + 1) =~= next);
                }
            }
            return None;
        }
        j += 1;
    }
    assert(t@.subrange(k as int, j as int) =~= body);
    if neg {
        if acc == 0x8000_0000_0000_0000 {
            Some(i64::MIN)
        } else {
            Some(-(acc as i64))
        }
    } else if acc > 0x7fff_ffff_ffff_ffff {
        None
    } else {
        Some(acc as i64)
    }
}


pub proof fn lemma_lexemes_push(ts: Seq<Token>, t: Token)
    ensures
        lexemes(ts.push(t)) == lexemes(ts).push(lexeme(t)),
{
    assert(lexemes(ts.push(t)) =~= lexemes(ts).push(lexeme(t)));
}

fn precedence_of(c: char) -> (r: i8)
    ensures
        r == precedence(c),
{
    if c == '+' || c == '-' {
        1
    } else if c == '*' || c == '/' {
        2
    } else {
        0
    }
}

fn should_pop(ops: &Vec<char>, c: char) -> (r: bool)
    ensures
        r == (ops@.len() > 0 && ops@.last() != '(' && precedence(ops@.last()) >= precedence(c)),
{
    if ops.len() == 0 {
        false
    } else {
        let top = ops[ops.len() - 1];
        top != '(' && precedence_of(top) >= precedence_of(c)
    }
}

/// Moves the operators that bind at least as tightly as `c` to the output.
fn pop_operators_for(ops: &mut Vec<char>, out: &mut Vec<Token>, c: char)
    ensures
        (final(ops)@, lexemes(final(out)@)) == pop_for(old(ops)@, lexemes(old(out)@), c),
{
    while should_pop(ops, c)
        invariant
            pop_for(ops@, lexemes(out@), c) == pop_for(old(ops)@, lexemes(old(out)@), c),
        decreases ops.len(),
    {
        let ghost o = ops@;
        let top = ops.pop().unwrap();
        proof {
            lemma_lexemes_push(out@, Token::Operator(top));
        }
        out.push(Token::Operator(top));
        assert(ops@ =~= o.drop_last());
        assert(top == o.last());
    }
}

/// Moves the operators down to an opening parenthesis to the output.
fn pop_operators_to_open(ops: &mut Vec<char>, out: &mut Vec<Token>)
    ensures
        (final(ops)@, lexemes(final(out)@)) == pop_to_open(old(ops)@, lexemes(old(out)@)),
{
    while ops.len() > 0 && ops[ops.len() - 1] != '('
        invariant
            pop_to_open(ops@, lexemes(out@)) == pop_to_open(old(ops)@, lexemes(old(out)@)),
        decreases ops.len(),
    {
        let ghost o = ops@;
        let top = ops.pop().unwrap();
        proof {
            lemma_lexemes_push(out@, Token::Operator(top));
        }
        out.push(Token::Operator(top));
        assert(ops@ =~= o.drop_last());
        assert(top == o.last());
    }
}

/// Moves all remaining operators to the output; `false` on an unclosed parenthesis.
fn flush_operators(ops: &mut Vec<char>, out: &mut Vec<Token>) -> (r: bool)
    ensures
        r ==> flush(old(ops)@, lexemes(old(out)@)) == Some(lexemes(final(out)@)),
        !r ==> flush(old(ops)@, lexemes(old(out)@)) is None,
{
    while ops.len() > 0
        invariant
            flush(ops@, lexemes(out@)) == flush(old(ops)@, lexemes(old(out)@)),
        decreases ops.len(),
    {
        let ghost o = ops@;
        let top = ops.pop().unwrap();
        assert(ops@ =~= o.drop_last());
        assert(top == o.last());
        if top == '(' {
            return false;
        }
        proof {
            lemma_lexemes_push(out@, Token::Operator(top));
        }
        out.push(Token::Operator(top));
    }
    true
}

fn unary_minus(cs: &Vec<char>, space: &Vec<bool>, num: &Vec<bool>, i: usize) -> (r: bool)
    requires
        i < cs.len(),
        space.len() == cs.len(),
        num.len() == cs.len(),
    ensures
        r == unary_minus_at(cs@, space@, num@, i as int),
{
    if cs[i] != '-' {
        return false;
    }
    if i + 1 >= cs.len() {
        return false;
    }
    if !(num[i + 1] || cs[i + 1] == '.') {
        return false;
    }
    let mut j: usize = i;
    while j > 0 && space[j - 1]
        invariant
            j <= i,
            i < cs.len(),
            space.len() == cs.len(),
            last_nonspace(space@, j as int) == last_nonspace(space@, i as int),
        decreases j,
    {
        j -= 1;
    }
    if j == 0 {
        true
    } else {
        let p = cs[j - 1];
        p == '+' || p == '-' || p == '*' || p == '/' || p == '('
    }
}

fn numeral_end_at(cs: &Vec<char>, num: &Vec<bool>, k: usize) -> (e: usize)
    requires
        k <= cs.len(),
        num.len() == cs.len(),
    ensures
        e == numeral_end(cs@, num@, k as int),
{
    let mut e: usize = k;
    while e < cs.len() && (num[e] || cs[e] == '.')
        invariant
            k <= e <= cs.len(),
            num.len() == cs.len(),
            numeral_end(cs@, num@, e as int) == numeral_end(cs@, num@, k as int),
        decreases cs.len() - e,
    {
        e += 1;
    }
    e
}

/// The postfix form of an expression text (shunting-yard), or `None` when its
/// parentheses do not match.
pub fn to_postfix(cs: &Vec<char>, space: &Vec<bool>, num: &Vec<bool>) -> (r: Option<Vec<Token>>)
    requires
        space.len() == cs.len(),
        num.len() == cs.len(),
    ensures
        (match r {
            Some(ts) => scan(cs@, space@, num@, 0, seq![], seq![]) == Some(lexemes(ts@)),
            None => scan(cs@, space@, num@, 0, seq![], seq![]) is None,
        }),
{
    let n = cs.len();
    let mut i: usize = 0;
    let mut ops: Vec<char> = Vec::new();
    let mut out: Vec<Token> = Vec::new();
    assert(lexemes(out@) =~= seq![]);
    while i < n
        invariant
            i <= n,
            n == cs.len(),
            space.len() == n,
            num.len() == n,
            scan(cs@, space@, num@, i as int, ops@, lexemes(out@)) == scan(
                cs@,
                space@,
                num@,
                0,
                seq![],
                seq![],
            ),
        decreases n - i,
    {
        let c = cs[i];
        if space[i] {
            i += 1;
        } else {
            let um = unary_minus(cs, space, num, i);
            if num[i] || c == '.' || um {
                let k = if um { i + 1 } else { i };
                let e = numeral_end_at(cs, num, k);
                proof {
                    lemma_numeral_end(cs@, num@, k as int + 1);
                }
                let text = sub_chars(cs, i, e);
                proof {
                    lemma_lexemes_push(out@, Token::Number(text));
                }
                out.push(Token::Number(text));
                i = e;
            } else if c == '+' || c == '-' || c == '*' || c == '/' {
                pop_operators_for(&mut ops, &mut out, c);
                ops.push(c);
                i += 1;
            } else if c == '(' {
                ops.push('(');
                i += 1;
            } else if c == ')' {
                pop_operators_to_open(&mut ops, &mut out);
                if ops.len() == 0 {
                    return None;
                }
                ops.pop();
                i += 1;
            } else {
                i += 1;
            }
        }
    }
    if flush_operators(&mut ops, &mut out) {
        Some(out)
    } else {
        None
    }
}



pub proof fn lemma_pow10_pos(k: nat)
    ensures
        pow10(k) >= 1,
    decreases k,
{
    if k > 0 {
        lemma_pow10_pos((k - 1) as nat);
    }
}

/// `10^k` for `k <= 18`.
fn power_of_ten(k: usize) -> (p: i64)
    requires
        k <= 18,
    ensures
        p == pow10(k as nat),
        1 <= p <= 1_000_000_000_000_000_000,
{
    assert(pow10(18) == 1_000_000_000_000_000_000) by {
        reveal_with_fuel(pow10, 19);
    }
    let mut p: i64 = 1;
    let mut j: usize = 0;
    while j < k
        invariant
            j <= k <= 18,
            p >= 1,
            p == pow10(j as nat),
            p * pow10((18 - j) as nat) == 1_000_000_000_000_000_000,
        decreases k - j,
    {
        let ghost rest = pow10((17 - j) as nat);
        assert(pow10((18 - j) as nat) == 10 * rest);
        proof {
            lemma_pow10_pos((17 - j) as nat);
        }
        assert(p * 10 <= 1_000_000_000_000_000_000) by (nonlinear_arith)
            requires
                p * (10 * rest) == 1_000_000_000_000_000_000,
                rest >= 1,
                p >= 1,
        ;
        assert((p * 10) * rest == 1_000_000_000_000_000_000) by (nonlinear_arith)
            requires
                p * (10 * rest) == 1_000_000_000_000_000_000,
        ;
        p = p * 10;
        j += 1;
    }
    proof {
        let rest = pow10((18 - j) as nat);
        lemma_pow10_pos((18 - j) as nat);
        assert(p <= 1_000_000_000_000_000_000) by (nonlinear_arith)
            requires
                p * rest == 1_000_000_000_000_000_000,
                rest >= 1,
                p >= 1,
        ;
    }
    p
}

/// The error text `prefix` followed by the characters `t[a..b]`.
fn error_with(prefix: &str, t: &Vec<char>, a: usize, b: usize) -> (r: String)
    requires
        a <= b <= t.len(),
    ensures
        r@ == prefix@ + t@.subrange(a as int, b as int),
{
    let part = sub_chars(t, a, b);
    let text = string_from_chars(part.as_slice());
    concat(prefix.to_owned(), text.as_str())
}

/// The value of a numeral token.
fn numeral_number(t: &Vec<char>) -> (r: Result<FractionalNumber, String>)
    ensures
        (match r {
            Ok(v) => numeral_value(t@) == Ok::<(int, int), Seq<char>>(v@),
            Err(e) => numeral_value(t@) == Err::<(int, int), Seq<char>>(e@),
        }),
{
    let len = t.len();
    let mut d: usize = 0;
    while d < len && t[d] != '.'
        invariant
            d <= len,
            len == t.len(),
            dot_from(t@, d as int) == dot_from(t@, 0),
        decreases len - d,
    {
        d += 1;
    }
    proof {
        reveal_strlit("Invalid integer: ");
        reveal_strlit("Invalid integer part: ");
        reveal_strlit("Invalid fractional part: ");
        reveal_strlit("Number out of range: ");
    }
    if d == len {
        assert(dot_from(t@, 0) < 0);
        assert(t@.subrange(0, len as int) =~= t@);
        match parse_int(t, 0, len) {
            Some(n) => {
                return Ok(FractionalNumber::from_integer(n));
            },
            None => {
                return Err(error_with("Invalid integer: ", t, 0, len));
            },
        }
    }
    assert(dot_from(t@, 0) == d);
    let a: i64 = if d == 0 {
        0
    } else {
        match parse_int(t, 0, d) {
            Some(v) => v,
            None => {
                return Err(error_with("Invalid integer part: ", t, 0, d));
            },
        }
    };
    let f: i64 = match parse_int(t, d + 1, len) {
        Some(v) => v,
        None => {
            return Err(error_with("Invalid fractional part: ", t, d + 1, len));
        },
    };
    let k = len - d - 1;
    if k > 18 {
        assert(t@.subrange(0, len as int) =~= t@);
        return Err(error_with("Number out of range: ", t, 0, len));
    }
    let den = power_of_ten(k);
    let ia: i128 = if a < 0 { -(a as i128) } else { a as i128 };
    let ifr: i128 = if f < 0 { -(f as i128) } else { f as i128 };
    let ghost fp = t@.subrange(d + 1, len as int);
    assert(fp.len() == k);
    assert(ia == iabs(a as int) && ifr == iabs(f as int));
    assert(ia * den <= 0x8000_0000_0000_0000 * 1_000_000_000_000_000_000) by (nonlinear_arith)
        requires
            0 <= ia <= 0x8000_0000_0000_0000,
            1 <= den <= 1_000_000_000_000_000_000,
    ;
    let total: i128 = ia * (den as i128) + ifr;
    if total > 0x7fff_ffff_ffff_ffff {
        assert(t@.subrange(0, len as int) =~= t@);
        return Err(error_with("Number out of range: ", t, 0, len));
    }
    let n: i128 = if a < 0 { -(ia * (den as i128) + (f as i128)) } else { (a as i128) * (den as i128) + (f as i128) };
    assert(-0x7fff_ffff_ffff_ffff <= n <= 0x7fff_ffff_ffff_ffff);
    let v = FractionalNumber::new(n as i64, den);
    proof {
        use_type_invariant(&v);
        lemma_qcanon(v@, (n as int, den as int));
    }
    Ok(v)
}

/// One operator applied to two values.
fn apply_op(op: char, a: FractionalNumber, b: FractionalNumber) -> (r: Result<FractionalNumber, String>)
    ensures
        (match r {
            Ok(v) => apply_operator(op, a@, b@) == Ok::<(int, int), Seq<char>>(v@),
            Err(e) => apply_operator(op, a@, b@) == Err::<(int, int), Seq<char>>(e@),
        }),
{
    proof {
        use_type_invariant(&a);
        use_type_invariant(&b);
        reveal_strlit("Invalid operator: ");
    }
    let res = if op == '+' {
        a.checked_add(b)
    } else if op == '-' {
        a.checked_sub(b)
    } else if op == '*' {
        a.checked_mul(b)
    } else if op == '/' {
        if b.is_zero() {
            return Err("Division by zero".to_owned());
        }
        a.checked_div(b)
    } else {
        let v = vec![op];
        let text = string_from_chars(v.as_slice());
        assert(v@ =~= seq![op]);
        return Err(concat("Invalid operator: ".to_owned(), text.as_str()));
    };
    match res {
        Some(v) => {
            proof {
                use_type_invariant(&v);
                assert(a@.1 * b@.1 > 0) by (nonlinear_arith)
                    requires
                        a@.1 > 0,
                        b@.1 > 0,
                ;
                if op == '+' {
                    lemma_qcanon(v@, qadd(a@, b@));
                } else if op == '-' {
                    lemma_qcanon(v@, qsub(a@, b@));
                } else if op == '*' {
                    lemma_qcanon(v@, qmul(a@, b@));
                } else {
                    assert(qdiv(a@, b@).1 != 0) by (nonlinear_arith)
                        requires
                            a@.1 > 0,
                            b@.0 != 0,
                            qdiv(a@, b@).1 == (if b@.0 < 0 { a@.1 * (-b@.0) } else { a@.1 * b@.0 }),
                    ;
                    lemma_qcanon(v@, qdiv(a@, b@));
                }
            }
            Ok(v)
        },
        None => Err("Arithmetic overflow".to_owned()),
    }
}

/// The values of a stack, as pairs.
pub open spec fn stack_values(vs: Seq<FractionalNumber>) -> Seq<(int, int)> {
    vs.map_values(|v: FractionalNumber| v@)
}

/// Evaluates a postfix form.
pub fn evaluate_postfix(ts: &Vec<Token>) -> (r: Result<FractionalNumber, String>)
    ensures
        (match r {
            Ok(v) => eval_from(lexemes(ts@), 0, seq![]) == Ok::<(int, int), Seq<char>>(v@),
            Err(e) => eval_from(lexemes(ts@), 0, seq![]) == Err::<(int, int), Seq<char>>(e@),
        }),
{
    let mut vals: Vec<FractionalNumber> = Vec::new();
    let mut i: usize = 0;
    assert(stack_values(vals@) =~= seq![]);
    while i < ts.len()
        invariant
            i <= ts.len(),
            eval_from(lexemes(ts@), i as int, stack_values(vals@)) == eval_from(lexemes(ts@), 0, seq![]),
        decreases ts.len() - i,
    {
        let ghost sv = stack_values(vals@);
        assert(lexemes(ts@)[i as int] == lexeme(ts@[i as int]));
        match &ts[i] {
            Token::Number(t) => {
                match numeral_number(t) {
                    Ok(v) => {
                        vals.push(v);
                        assert(stack_values(vals@) =~= sv.push(v@));
                    },
                    Err(e) => {
                        return Err(e);
                    },
                }
            },
            Token::Operator(c) => {
                if vals.len() < 2 {
                    return Err("Invalid expression".to_owned());
                }
                let b = vals.pop().unwrap();
                let a = vals.pop().unwrap();
                assert(a@ == sv[sv.len() - 2] && b@ == sv[sv.len() - 1]);
                match apply_op(*c, a, b) {
                    Ok(v) => {
                        vals.push(v);
                        assert(stack_values(vals@) =~= sv.drop_last().drop_last().push(v@));
                    },
                    Err(e) => {
                        return Err(e);
                    },
                }
            },
        }
        i += 1;
    }
    if vals.len() == 1 {
        Ok(vals[0])
    } else {
        Err("Invalid expression".to_owned())
    }
}

/// Evaluates an expression text, given which of its characters are spaces and
/// which are numeric.
pub fn evaluate_expression(cs: &Vec<char>, space: &Vec<bool>, num: &Vec<bool>) -> (r: Result<FractionalNumber, String>)
    requires
        space.len() == cs.len(),
        num.len() == cs.len(),
    ensures
        (match r {
            Ok(v) => expression_value(cs@, space@, num@) == Ok::<(int, int), Seq<char>>(v@),
            Err(e) => expression_value(cs@, space@, num@) == Err::<(int, int), Seq<char>>(e@),
        }),
{
    match to_postfix(cs, space, num) {
        None => Err("Mismatched parentheses".to_owned()),
        Some(ts) => evaluate_postfix(&ts),
    }
}

impl FractionalNumber {
    /// Reads a rate typed as an expression: integers and decimals, `+ - * /`
    /// and parentheses, e.g. `"3/4"`, `"1.5"` or `"(1 + 2) * 3"`.
    pub fn from_string(s: &str) -> (r: Result<FractionalNumber, String>)
        ensures
            (match r {
                Ok(v) => expression_value(s@, whitespace_flags(s@), numeric_flags(s@)) == Ok::<(int, int), Seq<char>>(v@),
                Err(e) => expression_value(s@, whitespace_flags(s@), numeric_flags(s@)) == Err::<(int, int), Seq<char>>(e@),
            }),
    {
        let cs = chars_of(s);
        let mut space: Vec<bool> = Vec::new();
        let mut num: Vec<bool> = Vec::new();
        let mut i: usize = 0;
        while i < cs.len()
            invariant
                i <= cs.len(),
                cs@ == s@,
                space@ == whitespace_flags(s@).subrange(0, i as int),
                num@ == numeric_flags(s@).subrange(0, i as int),
            decreases cs.len() - i,
        {
            space.push(is_whitespace(cs[i]));
            num.push(is_numeric(cs[i]));
            i += 1;
            assert(space@ =~= whitespace_flags(s@).subrange(0, i as int));
            assert(num@ =~= numeric_flags(s@).subrange(0, i as int));
        }
        assert(space@ =~= whitespace_flags(s@));
        assert(num@ =~= numeric_flags(s@));
        evaluate_expression(&cs, &space, &num)
    }
}


/// The decimal numeral of `n` is one or more ASCII digits whose value is `n`.
proof fn lemma_decimal_digits(n: nat)
    ensures
        nat_to_decimal(n).len() >= 1,
        all_digits(nat_to_decimal(n)),
        digits_value(nat_to_decimal(n)) == n,
    decreases n,
{
    let s = nat_to_decimal(n);
    if n >= 10 {
        lemma_decimal_digits(n / 10);
        let p = nat_to_decimal(n / 10);
        let d = (n % 10) as int;
        assert(s == p.push(digit_char(d)));
        assert(s.drop_last() =~= p);
        assert(digit_char(d) as int == 48 + d);
        assert forall|j: int| 0 <= j < s.len() implies ascii_digit(#[trigger] s[j]) by {
            if j < p.len() {
                assert(s[j] == p[j]);
            }
        }
        assert(n == (n / 10) * 10 + d);
        assert(s.last() == digit_char(d));
        assert(digits_value(s) == digits_value(s.drop_last()) * 10 + (s.last() as int - 48));
        assert(digits_value(s) == (n / 10) * 10 + d);
    } else {
        assert(s == seq![digit_char(n as int)]);
        assert(s.drop_last() =~= Seq::<char>::empty());
        assert(digit_char(n as int) as int == 48 + n);
        assert(digits_value(s.drop_last()) == 0);
        assert(s.last() == digit_char(n as int));
        assert(digits_value(s) == digits_value(s.drop_last()) * 10 + (s.last() as int - 48));
    }
}

/// A run of numeral characters from `k` that stops at `e` ends at `e`.
proof fn lemma_numeral_run(cs: Seq<char>, num: Seq<bool>, k: int, e: int)
    requires
        0 <= k <= e <= cs.len(),
        forall|j: int| k <= j < e ==> #[trigger] numeral_char(cs, num, j),
        e == cs.len() || !numeral_char(cs, num, e),
    ensures
        numeral_end(cs, num, k) == e,
    decreases e - k,
{
    if k < e {
        assert(numeral_char(cs, num, k));
        lemma_numeral_run(cs, num, k + 1, e);
    }
}

/// A text without a decimal point has none from `k` on.
proof fn lemma_no_dot(t: Seq<char>, k: int)
    requires
        0 <= k,
        forall|j: int| 0 <= j < t.len() ==> #[trigger] t[j] != '.',
    ensures
        dot_from(t, k) == -1,
    decreases t.len() - k,
{
    if k < t.len() {
        lemma_no_dot(t, k + 1);
    }
}

/// The decimal numeral of an `i64` value reads back as that value.
proof fn lemma_numeral_reads_back(n: int)
    requires
        -i64_max() - 1 <= n <= i64_max(),
    ensures
        numeral_value(int_to_decimal(n)) == Ok::<(int, int), Seq<char>>((n, 1)),
        int_to_decimal(n).len() >= 1,
        forall|j: int| 0 <= j < int_to_decimal(n).len() ==> (j == 0 && n < 0 && #[trigger] int_to_decimal(n)[j] == '-')
            || ascii_digit(int_to_decimal(n)[j]),
        n < 0 <==> int_to_decimal(n)[0] == '-',
{
    let t = int_to_decimal(n);
    if n < 0 {
        let m = (-n) as nat;
        lemma_decimal_digits(m);
        let ds = nat_to_decimal(m);
        assert(t == seq!['-'] + ds);
        assert(t.drop_first() =~= ds);
        assert forall|j: int| 0 <= j < t.len() implies (j == 0 && n < 0 && #[trigger] t[j] == '-') || ascii_digit(t[j]) by {
            if j > 0 {
                assert(t[j] == ds[j - 1]);
            }
        }
        assert forall|j: int| 0 <= j < t.len() implies #[trigger] t[j] != '.' by {
            if j > 0 {
                assert(t[j] == ds[j - 1]);
            }
        }
        lemma_no_dot(t, 0);
        assert(parse_i64(t) == Some(n));
    } else {
        lemma_decimal_digits(n as nat);
        assert forall|j: int| 0 <= j < t.len() implies #[trigger] t[j] != '.' by {
            assert(ascii_digit(t[j]));
        }
        lemma_no_dot(t, 0);
        assert(ascii_digit(t[0]));
        assert(parse_i64(t) == Some(n));
    }
}

/// Digits, `-` and `/` are not whitespace and not a decimal point, and of
/// them only the digits are numeric.
proof fn lemma_text_flags(cs: Seq<char>, j: int)
    requires
        0 <= j < cs.len(),
        ascii_digit(cs[j]) || cs[j] == '-' || cs[j] == '/',
    ensures
        !whitespace_flags(cs)[j],
        numeric_flags(cs)[j] == ascii_digit(cs[j]),
        !(cs[j] == '.'),
{
}

/// Printing a value in lowest terms whose parts are values of `i64` (as
/// `to_fraction_string` does) and reading the text back (as `from_string`
/// does) gives the value again.
pub proof fn law_fraction_text_reads_back(q: (int, int))
    requires
        normalized(q),
        -i64_max() - 1 <= q.0 <= i64_max(),
        q.1 <= i64_max(),
    ensures
        expression_value(fraction_text(q), whitespace_flags(fraction_text(q)), numeric_flags(fraction_text(q)))
            == Ok::<(int, int), Seq<char>>(q),
{
    let cs = fraction_text(q);
    let sp = whitespace_flags(cs);
    let nm = numeric_flags(cs);
    let a = int_to_decimal(q.0);
    lemma_numeral_reads_back(q.0);
    let p = a.len() as int;
    if q.1 == 1 {
        assert(cs == a);
        assert forall|j: int| 0 <= j < cs.len() implies !sp[j] && (j > 0 ==> #[trigger] numeral_char(cs, nm, j)) by {
            lemma_text_flags(cs, j);
        }
        assert(!sp[0]);
        lemma_text_flags(cs, 0);
        if q.0 < 0 {
            assert(numeral_char(cs, nm, 1)) by {
                lemma_text_flags(cs, 1);
            }
            assert(last_nonspace(sp, 0) == -1);
            assert(unary_minus_at(cs, sp, nm, 0));
            lemma_numeral_run(cs, nm, 1, p);
        } else {
            assert(numeral_char(cs, nm, 0));
            lemma_numeral_run(cs, nm, 0, p);
        }
        assert(cs.subrange(0, p) =~= cs);
        let out = seq![Lexeme::Number(cs)];
        assert(scan(cs, sp, nm, 0, seq![], seq![]) == scan(cs, sp, nm, p, seq![], out));
        assert(scan(cs, sp, nm, p, seq![], out) == Some(out));
        assert(eval_from(out, 0, seq![]) == eval_from(out, 1, seq![(q.0, 1int)]));
        assert(eval_from(out, 1, seq![(q.0, 1int)]) == Ok::<(int, int), Seq<char>>((q.0, 1int)));
    } else {
        let d = nat_to_decimal(q.1 as nat);
        lemma_decimal_digits(q.1 as nat);
        assert(cs == a + seq!['/'] + d);
        let len = cs.len() as int;
        assert(len == p + 1 + d.len());
        assert forall|j: int| 0 <= j < p implies #[trigger] cs[j] == a[j] by {}
        assert forall|j: int| p + 1 <= j < len implies #[trigger] cs[j] == d[j - p - 1] by {}
        assert(cs[p] == '/');
        assert forall|j: int| 0 <= j < len implies !sp[j] by {
            if j < p {
                assert(cs[j] == a[j]);
            } else if j > p {
                assert(cs[j] == d[j - p - 1]);
                assert(ascii_digit(d[j - p - 1]));
            }
            lemma_text_flags(cs, j);
        }
        assert forall|j: int| 0 < j < p implies #[trigger] numeral_char(cs, nm, j) by {
            assert(cs[j] == a[j]);
            lemma_text_flags(cs, j);
        }
        assert forall|j: int| p + 1 <= j < len implies #[trigger] numeral_char(cs, nm, j) by {
            assert(cs[j] == d[j - p - 1]);
            assert(ascii_digit(d[j - p - 1]));
            lemma_text_flags(cs, j);
        }
        lemma_text_flags(cs, p);
        assert(!numeral_char(cs, nm, p));
        lemma_text_flags(cs, 0);
        assert(cs[0] == a[0]);
        if q.0 < 0 {
            assert(cs[1] == a[1]);
            lemma_text_flags(cs, 1);
            assert(numeral_char(cs, nm, 1));
            assert(last_nonspace(sp, 0) == -1);
            assert(unary_minus_at(cs, sp, nm, 0));
            lemma_numeral_run(cs, nm, 1, p);
        } else {
            assert(numeral_char(cs, nm, 0));
            lemma_numeral_run(cs, nm, 0, p);
        }
        assert(cs.subrange(0, p) =~= a);
        let o1 = seq![Lexeme::Number(a)];
        assert(scan(cs, sp, nm, 0, seq![], seq![]) == scan(cs, sp, nm, p, seq![], o1));
        assert(!unary_minus_at(cs, sp, nm, p));
        assert(is_operator(cs[p]));
        assert(pop_for(seq![], o1, '/') == (Seq::<char>::empty(), o1));
        assert(scan(cs, sp, nm, p, seq![], o1) == scan(cs, sp, nm, p + 1, seq!['/'], o1));
        assert(cs[p + 1] == d[0]);
        assert(ascii_digit(d[0]));
        assert(cs[p + 1] != '-');
        assert(!unary_minus_at(cs, sp, nm, p + 1));
        lemma_numeral_run(cs, nm, p + 1, len);
        assert(cs.subrange(p + 1, len) =~= d);
        let o2 = o1.push(Lexeme::Number(d));
        assert(scan(cs, sp, nm, p + 1, seq!['/'], o1) == scan(cs, sp, nm, len, seq!['/'], o2));
        let ls = o2.push(Lexeme::Operator('/'));
        assert(flush(seq!['/'], o2) == flush(Seq::<char>::empty(), ls)) by {
            assert(seq!['/'].drop_last() =~= Seq::<char>::empty());
        }
        assert(scan(cs, sp, nm, len, seq!['/'], o2) == Some(ls));
        // the numerals
        assert forall|j: int| 0 <= j < d.len() implies #[trigger] d[j] != '.' by {
            assert(ascii_digit(d[j]));
        }
        lemma_no_dot(d, 0);
        assert(ascii_digit(d[0]));
        assert(parse_i64(d) == Some(q.1));
        assert(numeral_value(d) == Ok::<(int, int), Seq<char>>((q.1, 1int)));
        let v1 = seq![(q.0, 1int)];
        let v2 = v1.push((q.1, 1int));
        assert(eval_from(ls, 0, seq![]) == eval_from(ls, 1, v1));
        assert(eval_from(ls, 1, v1) == eval_from(ls, 2, v2));
        // the division
        assert(gcd(iabs(q.0), 1) == 1) by {
            reveal_with_fuel(gcd, 2);
        }
        assert(gcd(1, 1) == 1) by {
            reveal_with_fuel(gcd, 2);
        }
        let m = iabs(q.0) as int;
        assert(m / 1 == m && q.1 / 1 == q.1 && 1int / 1 == 1);
        assert(m * 1 == m && 1 * q.1 == q.1);
        assert(iabs(q.1) == q.1);
        assert(signed_fits(q.0 < 0, m));
        assert(div_fits((q.0, 1), (q.1, 1)));
        assert(qdiv((q.0, 1), (q.1, 1)) == (q.0, q.1));
        lemma_qcanon(q, q);
        assert(apply_operator('/', (q.0, 1), (q.1, 1)) == Ok::<(int, int), Seq<char>>(q));
        assert(v2.drop_last().drop_last().push(q) =~= seq![q]);
        assert(eval_from(ls, 2, v2) == eval_from(ls, 3, seq![q]));
    }
}


/// `x`, then `op` applied to it and `y`; an error in `x` stays.
pub open spec fn then_apply(x: Result<(int, int), Seq<char>>, op: char, y: (int, int)) -> Result<(int, int), Seq<char>> {
    match x {
        Ok(v) => apply_operator(op, v, y),
        Err(e) => Err(e),
    }
}

/// `x`, then `op` applied to `v` and it; an error in `x` stays.
pub open spec fn apply_then(v: (int, int), op: char, x: Result<(int, int), Seq<char>>) -> Result<(int, int), Seq<char>> {
    match x {
        Ok(w) => apply_operator(op, v, w),
        Err(e) => Err(e),
    }
}

/// The value of `a o b p c` by the usual rules: `*` and `/` bind tighter than
/// `+` and `-`, and operators that bind alike apply from left to right.
pub open spec fn three_terms(a: (int, int), o: char, b: (int, int), p: char, c: (int, int)) -> Result<(int, int), Seq<char>> {
    if precedence(p) > precedence(o) {
        apply_then(a, o, apply_operator(p, b, c))
    } else {
        then_apply(apply_operator(o, a, b), p, c)
    }
}

/// Operators are not whitespace, not numeric and not a decimal point.
proof fn lemma_op_flags(cs: Seq<char>, j: int)
    requires
        0 <= j < cs.len(),
        is_operator(cs[j]),
    ensures
        !whitespace_flags(cs)[j],
        !numeric_flags(cs)[j],
        cs[j] != '.',
{
}

/// A run of ASCII digits reads as its value.
proof fn lemma_digits_numeral(t: Seq<char>)
    requires
        t.len() > 0,
        all_digits(t),
        digits_value(t) <= i64_max(),
    ensures
        numeral_value(t) == Ok::<(int, int), Seq<char>>((digits_value(t), 1int)),
{
    assert forall|j: int| 0 <= j < t.len() implies #[trigger] t[j] != '.' by {
        assert(ascii_digit(t[j]));
    }
    lemma_no_dot(t, 0);
    lemma_digits_nonneg(t);
    assert(ascii_digit(t[0]));
    assert(parse_i64(t) == Some(digits_value(t)));
}

/// Three numerals joined by two operators, as in `10-4-3`, `8/4/2` or
/// `1+2*3`, are read by the usual rules of arithmetic: `*` and `/` bind
/// tighter than `+` and `-`, and operators that bind alike apply from left
/// to right.
pub proof fn law_three_terms(a: Seq<char>, o: char, b: Seq<char>, p: char, c: Seq<char>)
    requires
        a.len() > 0 && all_digits(a) && digits_value(a) <= i64_max(),
        b.len() > 0 && all_digits(b) && digits_value(b) <= i64_max(),
        c.len() > 0 && all_digits(c) && digits_value(c) <= i64_max(),
        is_operator(o),
        is_operator(p),
    ensures
        ({
            let t = a + seq![o] + b + seq![p] + c;
            expression_value(t, whitespace_flags(t), numeric_flags(t)) == three_terms(
                (digits_value(a), 1),
                o,
                (digits_value(b), 1),
                p,
                (digits_value(c), 1),
            )
        }),
{
    let cs = a + seq![o] + b + seq![p] + c;
    let sp = whitespace_flags(cs);
    let nm = numeric_flags(cs);
    let pa = a.len() as int;
    let pb = pa + 1 + b.len();
    let len = cs.len() as int;
    assert(len == pb + 1 + c.len());
    assert forall|j: int| 0 <= j < pa implies #[trigger] cs[j] == a[j] by {}
    assert forall|j: int| pa + 1 <= j < pb implies #[trigger] cs[j] == b[j - pa - 1] by {}
    assert forall|j: int| pb + 1 <= j < len implies #[trigger] cs[j] == c[j - pb - 1] by {}
    assert(cs[pa] == o && cs[pb] == p);
    // every character: digits are numeral characters, operators are not; none is a space
    assert forall|j: int| 0 <= j < len implies !sp[j] && (#[trigger] numeral_char(cs, nm, j) <==> (j != pa && j != pb)) by {
        if j == pa || j == pb {
            lemma_op_flags(cs, j);
        } else {
            if j < pa {
                assert(ascii_digit(a[j]));
            } else if j < pb {
                assert(ascii_digit(b[j - pa - 1]));
            } else {
                assert(ascii_digit(c[j - pb - 1]));
            }
            assert(ascii_digit(cs[j]));
            lemma_text_flags(cs, j);
        }
    }
    assert(ascii_digit(a[0]) && ascii_digit(b[0]) && ascii_digit(c[0]));
    assert(ascii_digit(a[pa - 1]) && ascii_digit(b[b.len() - 1]));
    assert(cs[0] != '-' && cs[pa + 1] != '-' && cs[pb + 1] != '-');
    assert(cs[pa - 1] == a[pa - 1] && cs[pb - 1] == b[b.len() - 1]);
    assert(!sp[pa - 1] && !sp[pb - 1]);
    assert(last_nonspace(sp, pa) == pa - 1);
    assert(last_nonspace(sp, pb) == pb - 1);
    assert(!is_operator(cs[pa - 1]) && cs[pa - 1] != '(');
    assert(!is_operator(cs[pb - 1]) && cs[pb - 1] != '(');
    assert(!unary_minus_at(cs, sp, nm, 0));
    assert(!unary_minus_at(cs, sp, nm, pa));
    assert(!unary_minus_at(cs, sp, nm, pa + 1));
    assert(!unary_minus_at(cs, sp, nm, pb));
    assert(!unary_minus_at(cs, sp, nm, pb + 1));
    assert(numeral_char(cs, nm, 0) && numeral_char(cs, nm, pa + 1) && numeral_char(cs, nm, pb + 1));
    assert(!numeral_char(cs, nm, pa) && !numeral_char(cs, nm, pb));
    lemma_numeral_run(cs, nm, 0, pa);
    lemma_numeral_run(cs, nm, pa + 1, pb);
    lemma_numeral_run(cs, nm, pb + 1, len);
    assert(cs.subrange(0, pa) =~= a);
    assert(cs.subrange(pa + 1, pb) =~= b);
    assert(cs.subrange(pb + 1, len) =~= c);
    let e: Seq<char> = Seq::empty();
    let o1 = seq![Lexeme::Number(a)];
    assert(scan(cs, sp, nm, 0, e, seq![]) == scan(cs, sp, nm, pa, e, o1));
    assert(pop_for(e, o1, o) == (e, o1));
    assert(e.push(o) =~= seq![o]);
    assert(scan(cs, sp, nm, pa, e, o1) == scan(cs, sp, nm, pa + 1, seq![o], o1));
    let o2 = o1.push(Lexeme::Number(b));
    assert(scan(cs, sp, nm, pa + 1, seq![o], o1) == scan(cs, sp, nm, pb, seq![o], o2));
    let va = (digits_value(a), 1int);
    let vb = (digits_value(b), 1int);
    let vc = (digits_value(c), 1int);
    lemma_digits_numeral(a);
    lemma_digits_numeral(b);
    lemma_digits_numeral(c);
    assert(seq![o].drop_last() =~= e);
    assert(seq![o].last() == o);
    if precedence(o) >= precedence(p) {
        let o3 = o2.push(Lexeme::Operator(o));
        assert(pop_for(seq![o], o2, p) == pop_for(e, o3, p));
        assert(pop_for(e, o3, p) == (e, o3));
        assert(e.push(p) =~= seq![p]);
        assert(scan(cs, sp, nm, pb, seq![o], o2) == scan(cs, sp, nm, pb + 1, seq![p], o3));
        let o4 = o3.push(Lexeme::Number(c));
        assert(scan(cs, sp, nm, pb + 1, seq![p], o3) == scan(cs, sp, nm, len, seq![p], o4));
        let ls = o4.push(Lexeme::Operator(p));
        assert(seq![p].drop_last() =~= e);
        assert(flush(seq![p], o4) == flush(e, ls));
        assert(scan(cs, sp, nm, len, seq![p], o4) == Some(ls));
        assert(ls =~= seq![Lexeme::Number(a), Lexeme::Number(b), Lexeme::Operator(o), Lexeme::Number(c), Lexeme::Operator(p)]);
        let v1 = seq![va];
        let v2 = v1.push(vb);
        assert(eval_from(ls, 0, seq![]) == eval_from(ls, 1, v1));
        assert(eval_from(ls, 1, v1) == eval_from(ls, 2, v2));
        match apply_operator(o, va, vb) {
            Ok(l) => {
                let v3 = seq![l];
                assert(v2.drop_last().drop_last().push(l) =~= v3);
                assert(eval_from(ls, 2, v2) == eval_from(ls, 3, v3));
                let v4 = v3.push(vc);
                assert(eval_from(ls, 3, v3) == eval_from(ls, 4, v4));
                match apply_operator(p, l, vc) {
                    Ok(r) => {
                        assert(v4.drop_last().drop_last().push(r) =~= seq![r]);
                        assert(eval_from(ls, 4, v4) == eval_from(ls, 5, seq![r]));
                    },
                    Err(_) => {},
                }
            },
            Err(_) => {},
        }
    } else {
        assert(pop_for(seq![o], o2, p) == (seq![o], o2));
        let ops = seq![o].push(p);
        assert(scan(cs, sp, nm, pb, seq![o], o2) == scan(cs, sp, nm, pb + 1, ops, o2));
        let o3 = o2.push(Lexeme::Number(c));
        assert(scan(cs, sp, nm, pb + 1, ops, o2) == scan(cs, sp, nm, len, ops, o3));
        let o4 = o3.push(Lexeme::Operator(p));
        let ls = o4.push(Lexeme::Operator(o));
        assert(ops.drop_last() =~= seq![o]);
        assert(ops.last() == p);
        assert(flush(ops, o3) == flush(seq![o], o4));
        assert(flush(seq![o], o4) == flush(e, ls));
        assert(scan(cs, sp, nm, len, ops, o3) == Some(ls));
        assert(ls =~= seq![Lexeme::Number(a), Lexeme::Number(b), Lexeme::Number(c), Lexeme::Operator(p), Lexeme::Operator(o)]);
        let v1 = seq![va];
        let v2 = v1.push(vb);
        let v3 = v2.push(vc);
        assert(eval_from(ls, 0, seq![]) == eval_from(ls, 1, v1));
        assert(eval_from(ls, 1, v1) == eval_from(ls, 2, v2));
        assert(eval_from(ls, 2, v2) == eval_from(ls, 3, v3));
        assert(v3[v3.len() - 2] == vb && v3[v3.len() - 1] == vc);
        match apply_operator(p, vb, vc) {
            Ok(r) => {
                let v4 = seq![va, r];
                assert(v3.drop_last().drop_last().push(r) =~= v4);
                assert(eval_from(ls, 3, v3) == eval_from(ls, 4, v4));
                match apply_operator(o, va, r) {
                    Ok(w) => {
                        assert(v4.drop_last().drop_last().push(w) =~= seq![w]);
                        assert(eval_from(ls, 4, v4) == eval_from(ls, 5, seq![w]));
                    },
                    Err(_) => {},
                }
            },
            Err(_) => {},
        }
    }
}


/// Parentheses are not whitespace, not numeric and not a decimal point.
proof fn lemma_paren_flags(cs: Seq<char>, j: int)
    requires
        0 <= j < cs.len(),
        cs[j] == '(' || cs[j] == ')',
    ensures
        !whitespace_flags(cs)[j],
        !numeric_flags(cs)[j],
        cs[j] != '.',
{
}

/// A parenthesized pair is evaluated first, whatever the operators:
/// `a o (b p c)` is `a o r` for `r` the value of `b p c`.
pub proof fn law_parenthesized_right(a: Seq<char>, o: char, b: Seq<char>, p: char, c: Seq<char>)
    requires
        a.len() > 0 && all_digits(a) && digits_value(a) <= i64_max(),
        b.len() > 0 && all_digits(b) && digits_value(b) <= i64_max(),
        c.len() > 0 && all_digits(c) && digits_value(c) <= i64_max(),
        is_operator(o),
        is_operator(p),
    ensures
        ({
            let t = a + seq![o, '('] + b + seq![p] + c + seq![')'];
            expression_value(t, whitespace_flags(t), numeric_flags(t)) == apply_then(
                (digits_value(a), 1),
                o,
                apply_operator(p, (digits_value(b), 1), (digits_value(c), 1)),
            )
        }),
{
    let cs = a + seq![o, '('] + b + seq![p] + c + seq![')'];
    let sp = whitespace_flags(cs);
    let nm = numeric_flags(cs);
    let pa = a.len() as int;
    let pb = pa + 2 + b.len();
    let pc = pb + 1 + c.len();
    let len = cs.len() as int;
    assert(len == pc + 1);
    assert forall|j: int| 0 <= j < pa implies #[trigger] cs[j] == a[j] by {}
    assert forall|j: int| pa + 2 <= j < pb implies #[trigger] cs[j] == b[j - pa - 2] by {}
    assert forall|j: int| pb + 1 <= j < pc implies #[trigger] cs[j] == c[j - pb - 1] by {}
    assert(cs[pa] == o && cs[pa + 1] == '(' && cs[pb] == p && cs[pc] == ')');
    assert forall|j: int| 0 <= j < len implies !sp[j] && (#[trigger] numeral_char(cs, nm, j) <==> (j != pa && j != pa + 1
        && j != pb && j != pc)) by {
        if j == pa || j == pb {
            lemma_op_flags(cs, j);
        } else if j == pa + 1 || j == pc {
            lemma_paren_flags(cs, j);
        } else {
            if j < pa {
                assert(ascii_digit(a[j]));
            } else if j < pb {
                assert(ascii_digit(b[j - pa - 2]));
            } else {
                assert(ascii_digit(c[j - pb - 1]));
            }
            assert(ascii_digit(cs[j]));
            lemma_text_flags(cs, j);
        }
    }
    assert(ascii_digit(a[0]) && ascii_digit(b[0]) && ascii_digit(c[0]));
    assert(ascii_digit(a[pa - 1]) && ascii_digit(b[b.len() - 1]));
    assert(cs[pa - 1] == a[pa - 1] && cs[pb - 1] == b[b.len() - 1]);
    assert(cs[0] != '-' && cs[pa + 2] != '-' && cs[pb + 1] != '-');
    assert(!sp[pa - 1] && !sp[pb - 1]);
    assert(last_nonspace(sp, pa) == pa - 1);
    assert(last_nonspace(sp, pb) == pb - 1);
    assert(!is_operator(cs[pa - 1]) && cs[pa - 1] != '(');
    assert(!is_operator(cs[pb - 1]) && cs[pb - 1] != '(');
    assert(!unary_minus_at(cs, sp, nm, 0));
    assert(!unary_minus_at(cs, sp, nm, pa));
    assert(!unary_minus_at(cs, sp, nm, pa + 1));
    assert(!unary_minus_at(cs, sp, nm, pa + 2));
    assert(!unary_minus_at(cs, sp, nm, pb));
    assert(!unary_minus_at(cs, sp, nm, pb + 1));
    assert(!unary_minus_at(cs, sp, nm, pc));
    assert(!is_operator(cs[pa + 1]) && !is_operator(cs[pc]));
    lemma_numeral_run(cs, nm, 0, pa);
    lemma_numeral_run(cs, nm, pa + 2, pb);
    lemma_numeral_run(cs, nm, pb + 1, pc);
    assert(cs.subrange(0, pa) =~= a);
    assert(cs.subrange(pa + 2, pb) =~= b);
    assert(cs.subrange(pb + 1, pc) =~= c);
    let e: Seq<char> = Seq::empty();
    let o1 = seq![Lexeme::Number(a)];
    assert(scan(cs, sp, nm, 0, e, seq![]) == scan(cs, sp, nm, pa, e, o1));
    assert(pop_for(e, o1, o) == (e, o1));
    assert(e.push(o) =~= seq![o]);
    assert(scan(cs, sp, nm, pa, e, o1) == scan(cs, sp, nm, pa + 1, seq![o], o1));
    let ops2 = seq![o].push('(');
    assert(scan(cs, sp, nm, pa + 1, seq![o], o1) == scan(cs, sp, nm, pa + 2, ops2, o1));
    let o2 = o1.push(Lexeme::Number(b));
    assert(scan(cs, sp, nm, pa + 2, ops2, o1) == scan(cs, sp, nm, pb, ops2, o2));
    assert(ops2.last() == '(');
    assert(pop_for(ops2, o2, p) == (ops2, o2));
    let ops3 = ops2.push(p);
    assert(scan(cs, sp, nm, pb, ops2, o2) == scan(cs, sp, nm, pb + 1, ops3, o2));
    let o3 = o2.push(Lexeme::Number(c));
    assert(scan(cs, sp, nm, pb + 1, ops3, o2) == scan(cs, sp, nm, pc, ops3, o3));
    let o4 = o3.push(Lexeme::Operator(p));
    assert(ops3.drop_last() =~= ops2 && ops3.last() == p);
    assert(pop_to_open(ops3, o3) == pop_to_open(ops2, o4));
    assert(pop_to_open(ops2, o4) == (ops2, o4));
    assert(ops2.drop_last() =~= seq![o]);
    assert(scan(cs, sp, nm, pc, ops3, o3) == scan(cs, sp, nm, len, seq![o], o4));
    let ls = o4.push(Lexeme::Operator(o));
    assert(seq![o].drop_last() =~= e && seq![o].last() == o);
    assert(flush(seq![o], o4) == flush(e, ls));
    assert(scan(cs, sp, nm, len, seq![o], o4) == Some(ls));
    assert(ls =~= seq![Lexeme::Number(a), Lexeme::Number(b), Lexeme::Number(c), Lexeme::Operator(p), Lexeme::Operator(o)]);
    let va = (digits_value(a), 1int);
    let vb = (digits_value(b), 1int);
    let vc = (digits_value(c), 1int);
    lemma_digits_numeral(a);
    lemma_digits_numeral(b);
    lemma_digits_numeral(c);
    let v1 = seq![va];
    let v2 = v1.push(vb);
    let v3 = v2.push(vc);
    assert(eval_from(ls, 0, seq![]) == eval_from(ls, 1, v1));
    assert(eval_from(ls, 1, v1) == eval_from(ls, 2, v2));
    assert(eval_from(ls, 2, v2) == eval_from(ls, 3, v3));
    assert(v3[v3.len() - 2] == vb && v3[v3.len() - 1] == vc);
    match apply_operator(p, vb, vc) {
        Ok(r) => {
            let v4 = seq![va, r];
            assert(v3.drop_last().drop_last().push(r) =~= v4);
            assert(eval_from(ls, 3, v3) == eval_from(ls, 4, v4));
            match apply_operator(o, va, r) {
                Ok(w) => {
                    assert(v4.drop_last().drop_last().push(w) =~= seq![w]);
                    assert(eval_from(ls, 4, v4) == eval_from(ls, 5, seq![w]));
                },
                Err(_) => {},
            }
        },
        Err(_) => {},
    }
}


/// Two numerals joined by `+`, `-` or `*` read as the sum, difference or
/// product of their values, where that is a value of `i64`.
pub proof fn law_two_terms(a: Seq<char>, o: char, b: Seq<char>)
    requires
        a.len() > 0 && all_digits(a) && digits_value(a) <= i64_max(),
        b.len() > 0 && all_digits(b) && digits_value(b) <= i64_max(),
        o == '+' || o == '-' || o == '*',
    ensures
        ({
            let t = a + seq![o] + b;
            let x = digits_value(a);
            let y = digits_value(b);
            let v = expression_value(t, whitespace_flags(t), numeric_flags(t));
            &&& o == '+' && x + y <= i64_max() ==> v == Ok::<(int, int), Seq<char>>((x + y, 1))
            &&& o == '-' ==> v == Ok::<(int, int), Seq<char>>((x - y, 1))
            &&& o == '*' && x * y <= i64_max() ==> v == Ok::<(int, int), Seq<char>>((x * y, 1))
        }),
{
    let cs = a + seq![o] + b;
    let sp = whitespace_flags(cs);
    let nm = numeric_flags(cs);
    let pa = a.len() as int;
    let len = cs.len() as int;
    assert(len == pa + 1 + b.len());
    assert forall|j: int| 0 <= j < pa implies #[trigger] cs[j] == a[j] by {}
    assert forall|j: int| pa + 1 <= j < len implies #[trigger] cs[j] == b[j - pa - 1] by {}
    assert(cs[pa] == o);
    assert forall|j: int| 0 <= j < len implies !sp[j] && (#[trigger] numeral_char(cs, nm, j) <==> j != pa) by {
        if j == pa {
            lemma_op_flags(cs, j);
        } else {
            if j < pa {
                assert(ascii_digit(a[j]));
            } else {
                assert(ascii_digit(b[j - pa - 1]));
            }
            assert(ascii_digit(cs[j]));
            lemma_text_flags(cs, j);
        }
    }
    assert(ascii_digit(a[0]) && ascii_digit(b[0]) && ascii_digit(a[pa - 1]));
    assert(cs[pa - 1] == a[pa - 1]);
    assert(cs[0] != '-' && cs[pa + 1] != '-');
    assert(!sp[pa - 1]);
    assert(last_nonspace(sp, pa) == pa - 1);
    assert(!is_operator(cs[pa - 1]) && cs[pa - 1] != '(');
    assert(!unary_minus_at(cs, sp, nm, 0));
    assert(!unary_minus_at(cs, sp, nm, pa));
    assert(!unary_minus_at(cs, sp, nm, pa + 1));
    lemma_numeral_run(cs, nm, 0, pa);
    lemma_numeral_run(cs, nm, pa + 1, len);
    assert(cs.subrange(0, pa) =~= a);
    assert(cs.subrange(pa + 1, len) =~= b);
    let e: Seq<char> = Seq::empty();
    let o1 = seq![Lexeme::Number(a)];
    assert(scan(cs, sp, nm, 0, e, seq![]) == scan(cs, sp, nm, pa, e, o1));
    assert(pop_for(e, o1, o) == (e, o1));
    assert(e.push(o) =~= seq![o]);
    assert(scan(cs, sp, nm, pa, e, o1) == scan(cs, sp, nm, pa + 1, seq![o], o1));
    let o2 = o1.push(Lexeme::Number(b));
    assert(scan(cs, sp, nm, pa + 1, seq![o], o1) == scan(cs, sp, nm, len, seq![o], o2));
    let ls = o2.push(Lexeme::Operator(o));
    assert(seq![o].drop_last() =~= e && seq![o].last() == o);
    assert(flush(seq![o], o2) == flush(e, ls));
    assert(scan(cs, sp, nm, len, seq![o], o2) == Some(ls));
    let x = digits_value(a);
    let y = digits_value(b);
    lemma_digits_numeral(a);
    lemma_digits_numeral(b);
    lemma_digits_nonneg(a);
    lemma_digits_nonneg(b);
    let va = (x, 1int);
    let vb = (y, 1int);
    let v1 = seq![va];
    let v2 = v1.push(vb);
    assert(eval_from(ls, 0, seq![]) == eval_from(ls, 1, v1));
    assert(eval_from(ls, 1, v1) == eval_from(ls, 2, v2));
    assert(v2[0] == va && v2[1] == vb);
    let r: (int, int) = if o == '+' { (x + y, 1) } else if o == '-' { (x - y, 1) } else { (x * y, 1) };
    let fits = if o == '+' { x + y <= i64_max() } else if o == '-' { true } else { x * y <= i64_max() };
    if fits {
        assert(gcd(iabs(r.0), 1) == 1) by {
            reveal_with_fuel(gcd, 2);
        }
        assert(normalized(r));
        if o == '*' {
            assert(gcd(iabs(x), 1) == 1) by {
                reveal_with_fuel(gcd, 2);
            }
            assert(gcd(1, iabs(y)) == 1) by {
                let yy = iabs(y);
                if yy == 0 {
                } else if yy == 1 {
                    assert(1nat % 1nat == 0);
                    reveal_with_fuel(gcd, 2);
                } else {
                    assert(1nat % yy == 1) by (nonlinear_arith)
                        requires
                            yy > 1,
                    ;
                    assert(yy % 1nat == 0);
                    reveal_with_fuel(gcd, 3);
                }
            }
            assert(iabs(x) == x && iabs(y) == y);
            assert(x / 1 == x && y / 1 == y && 1int / 1 == 1);
            assert(mul_fits(va, vb));
            assert(qmul(va, vb) == (x * y, 1int * 1));
            lemma_qcanon(r, qmul(va, vb));
        } else if o == '+' {
            assert(add_fits(va, vb));
            assert(qadd(va, vb) == (x * 1 + y * 1, 1int * 1));
            lemma_qcanon(r, qadd(va, vb));
        } else {
            assert(sub_fits(va, vb));
            assert(qsub(va, vb) == (x * 1 - y * 1, 1int * 1));
            lemma_qcanon(r, qsub(va, vb));
        }
        assert(apply_operator(o, va, vb) == Ok::<(int, int), Seq<char>>(r));
        assert(v2.drop_last().drop_last().push(r) =~= seq![r]);
        assert(eval_from(ls, 2, v2) == eval_from(ls, 3, seq![r]));
    }
}


/// The digits of `a` followed by those of `b` have the value of `a` shifted
/// by the length of `b`, plus the value of `b`.
proof fn lemma_digits_concat(a: Seq<char>, b: Seq<char>)
    ensures
        digits_value(a + b) == digits_value(a) * pow10(b.len()) + digits_value(b),
        pow10(b.len()) >= 1,
    decreases b.len(),
{
    if b.len() == 0 {
        assert(a + b =~= a);
    } else {
        let bd = b.drop_last();
        lemma_digits_concat(a, bd);
        assert((a + b).drop_last() =~= a + bd);
        assert((a + b).last() == b.last());
        let x = digits_value(a);
        let k = pow10(bd.len());
        let y = digits_value(bd);
        let l = b.last() as int - 48;
        assert(digits_value(a + b) == (x * k + y) * 10 + l);
        assert(digits_value(b) == y * 10 + l);
        assert(pow10(b.len()) == 10 * k);
        assert((x * k + y) * 10 + l == x * (10 * k) + (y * 10 + l)) by (nonlinear_arith);
    }
}

/// The first decimal point from `k` on is at `d`.
proof fn lemma_dot_at(t: Seq<char>, k: int, d: int)
    requires
        0 <= k <= d < t.len(),
        t[d] == '.',
        forall|j: int| k <= j < d ==> #[trigger] t[j] != '.',
    ensures
        dot_from(t, k) == d,
    decreases d - k,
{
    if k < d {
        lemma_dot_at(t, k + 1, d);
    }
}

/// A decimal numeral `a.b` reads as the number its digits make, over ten to
/// the number of digits after the point (in lowest terms): `12.5` is `125/10`.
pub proof fn law_decimal_numeral(a: Seq<char>, b: Seq<char>)
    requires
        a.len() > 0 && all_digits(a),
        b.len() > 0 && all_digits(b),
        b.len() <= 18,
        digits_value(a + b) <= i64_max(),
    ensures
        ({
            let t = a + seq!['.'] + b;
            expression_value(t, whitespace_flags(t), numeric_flags(t)) == Ok::<(int, int), Seq<char>>(
                qcanon((digits_value(a + b), pow10(b.len()))),
            )
        }),
{
    let t = a + seq!['.'] + b;
    let sp = whitespace_flags(t);
    let nm = numeric_flags(t);
    let pa = a.len() as int;
    let len = t.len() as int;
    assert forall|j: int| 0 <= j < pa implies #[trigger] t[j] == a[j] by {}
    assert forall|j: int| pa + 1 <= j < len implies #[trigger] t[j] == b[j - pa - 1] by {}
    assert(t[pa] == '.');
    assert forall|j: int| 0 <= j < len implies !sp[j] && #[trigger] numeral_char(t, nm, j) by {
        if j != pa {
            if j < pa {
                assert(ascii_digit(a[j]));
            } else {
                assert(ascii_digit(b[j - pa - 1]));
            }
            assert(ascii_digit(t[j]));
            lemma_text_flags(t, j);
        }
    }
    assert(ascii_digit(a[0]));
    assert(t[0] != '-');
    assert(!unary_minus_at(t, sp, nm, 0));
    lemma_numeral_run(t, nm, 0, len);
    assert(t.subrange(0, len) =~= t);
    let ls = seq![Lexeme::Number(t)];
    assert(scan(t, sp, nm, 0, seq![], seq![]) == scan(t, sp, nm, len, seq![], ls));
    assert(scan(t, sp, nm, len, seq![], ls) == Some(ls));
    // the numeral
    assert forall|j: int| 0 <= j < pa implies #[trigger] t[j] != '.' by {
        assert(ascii_digit(a[j]));
    }
    lemma_dot_at(t, 0, pa);
    assert(t.subrange(0, pa) =~= a);
    assert(t.subrange(pa + 1, len) =~= b);
    lemma_digits_concat(a, b);
    lemma_digits_nonneg(a);
    lemma_digits_nonneg(b);
    let x = digits_value(a);
    let y = digits_value(b);
    let den = pow10(b.len());
    assert(x <= x * den) by (nonlinear_arith)
        requires
            x >= 0,
            den >= 1,
    ;
    assert(y <= i64_max());
    lemma_digits_numeral(a);
    lemma_digits_numeral(b);
    assert(parse_i64(a) == Some(x));
    assert(parse_i64(b) == Some(y));
    assert(iabs(x) == x && iabs(y) == y);
    assert(numeral_value(t) == Ok::<(int, int), Seq<char>>(qcanon((x * den + y, den))));
    assert(eval_from(ls, 0, seq![]) == eval_from(ls, 1, seq![qcanon((x * den + y, den))]));
}

} // verus!
