//! The lexer: from characters to tokens.
//!
//! The text ends at its first NUL character, or where the buffer ends if it
//! holds none.

use crate::token::{token_values, SpecToken, Token};
use vstd::arithmetic::div_mod::{lemma_add_mod_noop, lemma_mul_mod_noop, lemma_small_mod};
use vstd::prelude::*;

verus! {

/// An unrecognised character and its index in the buffer.
#[derive(Clone, Copy, PartialEq, Eq, Debug, Structural)]
pub struct LexError {
    pub ch: char,
    pub pos: usize,
}

/// The classes of characters that the lexer reads in runs.
#[derive(Clone, Copy, PartialEq, Eq, Debug, Structural)]
pub enum Class {
    Space,
    Digit,
    Word,
}

/// The characters with the Unicode property `White_Space`.
pub open spec fn white_space(c: char) -> bool {
    let u = c as u32;
    ||| 0x09 <= u <= 0x0D
    ||| u == 0x20
    ||| u == 0x85
    ||| u == 0xA0
    ||| u == 0x1680
    ||| 0x2000 <= u <= 0x200A
    ||| u == 0x2028
    ||| u == 0x2029
    ||| u == 0x202F
    ||| u == 0x205F
    ||| u == 0x3000
}

/// The ASCII decimal digits.
pub open spec fn decimal_digit(c: char) -> bool {
    '0' <= c <= '9'
}

/// The characters that begin an identifier: an ASCII letter or `_`.
pub open spec fn word_start(c: char) -> bool {
    'a' <= c <= 'z' || 'A' <= c <= 'Z' || c == '_'
}

/// The characters that continue an identifier.
pub open spec fn word_char(c: char) -> bool {
    word_start(c) || decimal_digit(c)
}

/// Whether `c` is of the class.
pub open spec fn in_class(class: Class, c: char) -> bool {
    match class {
        Class::Space => white_space(c),
        Class::Digit => decimal_digit(c),
        Class::Word => word_char(c),
    }
}

/// The length of the longest run of characters of `class` that begins at
/// index `i`.
pub open spec fn run_len(s: Seq<char>, i: int, class: Class) -> nat
    decreases s.len() - i,
{
    if 0 <= i < s.len() && in_class(class, s[i]) {
        1 + run_len(s, i + 1, class)
    } else {
        0
    }
}

/// The characters of the longest run of `class` that begins at index `i`.
pub open spec fn run_text(s: Seq<char>, i: int, class: Class) -> Seq<char> {
    if 0 <= i <= s.len() {
        s.subrange(i, i + run_len(s, i, class))
    } else {
        Seq::empty()
    }
}

/// The value of a digit.
pub open spec fn digit_value(c: char) -> nat
    recommends
        decimal_digit(c),
{
    (c as u32 - 48) as nat
}

/// The number that a sequence of digits denotes in decimal.
pub open spec fn decimal_value(digits: Seq<char>) -> nat
    decreases digits.len(),
{
    if digits.len() == 0 {
        0
    } else {
        decimal_value(digits.drop_last()) * 10 + digit_value(digits.last())
    }
}

/// The value of a number token: the decimal value of its digits, reduced to
/// the width of `usize`. No number is rejected for its size.
pub open spec fn number_value(digits: Seq<char>) -> usize {
    (decimal_value(digits) % (usize::MAX + 1) as nat) as usize
}

/// The tokens of one character.
pub open spec fn punctuation(c: char) -> Option<SpecToken> {
    if c == '+' {
        Some(SpecToken::Add)
    } else if c == '-' {
        Some(SpecToken::Sub)
    } else if c == '*' {
        Some(SpecToken::Mul)
    } else if c == '/' {
        Some(SpecToken::Div)
    } else if c == '%' {
        Some(SpecToken::Mod)
    } else if c == '(' {
        Some(SpecToken::ParL)
    } else if c == ')' {
        Some(SpecToken::ParR)
    } else if c == '=' {
        Some(SpecToken::Assign)
    } else if c == ';' {
        Some(SpecToken::Semicolon)
    } else {
        None
    }
}

/// Whether the text has ended at index `i`.
pub open spec fn at_end(s: Seq<char>, i: int) -> bool {
    !(0 <= i < s.len()) || s[i] == '\0'
}

/// The length of the token that begins at index `i`: one character, or the
/// longest run of digits, or the longest run of identifier characters.
pub open spec fn token_len(s: Seq<char>, i: int) -> nat {
    let c = s[i];
    if punctuation(c) is Some {
        1
    } else if decimal_digit(c) {
        1 + run_len(s, i + 1, Class::Digit)
    } else if word_start(c) {
        1 + run_len(s, i + 1, Class::Word)
    } else {
        1
    }
}

/// The token that begins at index `i`, where a character other than white
/// space stands.
pub open spec fn token_here(s: Seq<char>, i: int) -> Result<SpecToken, LexError> {
    let c = s[i];
    let text = s.subrange(i, i + token_len(s, i));
    if punctuation(c) is Some {
        Ok(punctuation(c).unwrap())
    } else if decimal_digit(c) {
        Ok(SpecToken::Num(number_value(text)))
    } else if word_start(c) {
        Ok(SpecToken::Id(text))
    } else {
        Err(LexError { ch: c, pos: i as usize })
    }
}

/// What is left of the buffer from index `i` on.
pub open spec fn rest_len(s: Seq<char>, i: int) -> nat {
    if i < s.len() {
        (s.len() - i) as nat
    } else {
        0
    }
}

/// `tokens` in front of the tokens of `r`, or the error of `r`.
pub open spec fn prepend(tokens: Seq<SpecToken>, r: Result<Seq<SpecToken>, LexError>) -> Result<
    Seq<SpecToken>,
    LexError,
> {
    match r {
        Ok(rest) => Ok(tokens + rest),
        Err(e) => Err(e),
    }
}

/// The tokens of the text from index `i` on: white space is skipped, each
/// token is the longest that begins where it does, and `Eof` closes the
/// sequence. The first character that begins no token is the error.
pub open spec fn lex_from(s: Seq<char>, i: int) -> Result<Seq<SpecToken>, LexError>
    decreases rest_len(s, i),
{
    let j = i + run_len(s, i, Class::Space);
    if at_end(s, j) {
        Ok(seq![SpecToken::Eof])
    } else {
        match token_here(s, j) {
            Err(e) => Err(e),
            Ok(t) => prepend(seq![t], lex_from(s, j + token_len(s, j))),
        }
    }
}

/// The tokens of a text.
pub open spec fn lex(s: Seq<char>) -> Result<Seq<SpecToken>, LexError> {
    lex_from(s, 0)
}

/// A run ends inside the buffer, holds only characters of its class, and is
/// followed by none.
pub proof fn lemma_run(s: Seq<char>, i: int, class: Class)
    requires
        0 <= i <= s.len(),
    ensures
        i + run_len(s, i, class) <= s.len(),
        forall|k: int| i <= k < i + run_len(s, i, class) ==> in_class(class, #[trigger] s[k]),
        i + run_len(s, i, class) < s.len() ==> !in_class(class, s[i + run_len(s, i, class)]),
        run_len(s, i + run_len(s, i, class), class) == 0,
    decreases s.len() - i,
{
    if i < s.len() && in_class(class, s[i]) {
        lemma_run(s, i + 1, class);
    }
}

/// Skipping white space first changes nothing.
pub proof fn lemma_lex_skips_space(s: Seq<char>, i: int)
    requires
        0 <= i <= s.len(),
    ensures
        lex_from(s, i + run_len(s, i, Class::Space)) == lex_from(s, i),
{
    lemma_run(s, i, Class::Space);
}

/// The tokens of a text end with `Eof`, and hold no other `Eof`.
pub proof fn lemma_lex_ends_with_eof(s: Seq<char>, i: int)
    ensures
        lex_from(s, i) matches Ok(tokens) ==> tokens.len() >= 1 && tokens.last() is Eof && forall|
            k: int,
        |
            0 <= k < tokens.len() - 1 ==> !(#[trigger] tokens[k] is Eof),
    decreases rest_len(s, i),
{
    let j = i + run_len(s, i, Class::Space);
    if !at_end(s, j) {
        if let Ok(t) = token_here(s, j) {
            lemma_lex_ends_with_eof(s, j + token_len(s, j));
        }
    }
}

/// A run in the second of two joined texts is the run in that text alone.
pub proof fn lemma_run_shift(p: Seq<char>, b: Seq<char>, i: int, class: Class)
    requires
        0 <= i,
    ensures
        run_len(p + b, p.len() + i, class) == run_len(b, i, class),
    decreases b.len() - i,
{
    if i < b.len() {
        assert((p + b)[p.len() + i] == b[i]);
        if in_class(class, b[i]) {
            lemma_run_shift(p, b, i + 1, class);
        }
    }
}

/// A run in the first of two joined texts is the run in that text alone,
/// where the second text does not begin with a character of the class.
pub proof fn lemma_run_prefix(a: Seq<char>, r: Seq<char>, i: int, class: Class)
    requires
        0 <= i <= a.len(),
        r.len() == 0 || !in_class(class, r[0]),
    ensures
        run_len(a + r, i, class) == run_len(a, i, class),
    decreases a.len() - i,
{
    if i < a.len() {
        assert((a + r)[i] == a[i]);
        if in_class(class, a[i]) {
            lemma_run_prefix(a, r, i + 1, class);
        }
    } else if r.len() > 0 {
        assert((a + r)[i] == r[0]);
    }
}

/// The tokens of the second of two joined texts are those of that text
/// alone.
pub proof fn lemma_lex_shift(p: Seq<char>, b: Seq<char>, i: int)
    requires
        0 <= i,
        lex_from(b, i) is Ok,
    ensures
        lex_from(p + b, p.len() + i) == lex_from(b, i),
    decreases rest_len(b, i),
{
    let s = p + b;
    let n = p.len() as int;
    lemma_run_shift(p, b, i, Class::Space);
    let j = i + run_len(b, i, Class::Space);
    if !at_end(b, j) {
        assert(s[n + j] == b[j]);
        lemma_run_shift(p, b, j + 1, Class::Digit);
        lemma_run_shift(p, b, j + 1, Class::Word);
        lemma_run(b, j + 1, Class::Digit);
        lemma_run(b, j + 1, Class::Word);
        let len = token_len(b, j);
        assert(token_len(s, n + j) == len);
        assert(s.subrange(n + j, n + j + len) =~= b.subrange(j, j + len));
        assert(token_here(s, n + j) == token_here(b, j));
        lemma_lex_shift(p, b, j + len);
    } else if i <= b.len() {
        lemma_run(b, i, Class::Space);
        if j < b.len() {
            assert(s[n + j] == b[j]);
        }
    }
}

/// White space is skipped: from the first of a stretch of white space the
/// tokens are the same as from behind it.
pub proof fn lemma_lex_through_space(s: Seq<char>, i: int, k: int)
    requires
        0 <= i <= k <= s.len(),
        forall|m: int| i <= m < k ==> white_space(#[trigger] s[m]),
    ensures
        lex_from(s, i) == lex_from(s, k),
    decreases k - i,
{
    if i < k {
        lemma_lex_through_space(s, i + 1, k);
        assert(run_len(s, i, Class::Space) == 1 + run_len(s, i + 1, Class::Space));
    }
}

/// The tokens of a text that is followed by white space and more text: its
/// own tokens without the closing `Eof`, then the tokens of what follows.
pub proof fn lemma_lex_prefix(a: Seq<char>, r: Seq<char>, i: int)
    requires
        0 <= i <= a.len(),
        forall|m: int| 0 <= m < a.len() ==> #[trigger] a[m] != '\0',
        r.len() > 0,
        white_space(r[0]),
        lex_from(a, i) is Ok,
    ensures
        lex_from(a + r, i) == prepend(lex_from(a, i)->Ok_0.drop_last(), lex_from(a + r, a.len() as int)),
    decreases rest_len(a, i),
{
    let s = a + r;
    let end = lex_from(s, a.len() as int);
    lemma_run(a, i, Class::Space);
    let j = i + run_len(a, i, Class::Space);
    assert forall|m: int| i <= m < j implies white_space(#[trigger] s[m]) by {
        assert(s[m] == a[m]);
        assert(in_class(Class::Space, a[m]));
    }
    lemma_lex_through_space(s, i, j);
    lemma_lex_through_space(a, i, j);
    if j == a.len() {
        assert(lex_from(a, i)->Ok_0 =~= seq![SpecToken::Eof]);
        assert(seq![SpecToken::Eof].drop_last() =~= Seq::<SpecToken>::empty());
        if let Ok(ts) = end {
            assert(Seq::<SpecToken>::empty() + ts =~= ts);
        }
    } else {
        assert(s[j] == a[j]);
        assert(!in_class(Class::Space, a[j]));
        assert(run_len(s, j, Class::Space) == 0);
        assert(run_len(a, j, Class::Space) == 0);
        lemma_run_prefix(a, r, j + 1, Class::Digit);
        lemma_run_prefix(a, r, j + 1, Class::Word);
        lemma_run(a, j + 1, Class::Digit);
        lemma_run(a, j + 1, Class::Word);
        let len = token_len(a, j);
        assert(token_len(s, j) == len);
        assert(s.subrange(j, j + len) =~= a.subrange(j, j + len));
        assert(token_here(s, j) == token_here(a, j));
        let t = token_here(a, j)->Ok_0;
        lemma_lex_prefix(a, r, j + len);
        lemma_lex_ends_with_eof(a, j + len);
        let rest = lex_from(a, j + len)->Ok_0;
        assert((seq![t] + rest).drop_last() =~= seq![t] + rest.drop_last());
        if let Ok(ts) = end {
            assert(seq![t] + (rest.drop_last() + ts) =~= (seq![t] + rest.drop_last()) + ts);
        }
    }
}

/// Two texts joined by white space have the tokens of the first, without
/// its closing `Eof`, and then those of the second. The first text holds
/// no NUL, which would end the joined text there.
pub proof fn lemma_lex_concat(a: Seq<char>, w: Seq<char>, b: Seq<char>)
    requires
        lex(a) is Ok,
        lex(b) is Ok,
        forall|m: int| 0 <= m < a.len() ==> #[trigger] a[m] != '\0',
        w.len() > 0,
        forall|m: int| 0 <= m < w.len() ==> white_space(#[trigger] w[m]),
    ensures
        lex(a + w + b) == Ok::<Seq<SpecToken>, LexError>(lex(a)->Ok_0.drop_last() + lex(b)->Ok_0),
{
    let s = a + w + b;
    assert(s =~= a + (w + b));
    assert((w + b)[0] == w[0]);
    lemma_lex_prefix(a, w + b, 0);
    assert forall|m: int| a.len() <= m < a.len() + w.len() implies white_space(#[trigger] s[m]) by {
        assert(s[m] == w[m - a.len()]);
    }
    lemma_lex_through_space(s, a.len() as int, (a.len() + w.len()) as int);
    lemma_lex_shift(a + w, b, 0);
}

/// Whether `c` is white space.
pub fn is_whitespace(c: char) -> (b: bool)
    ensures
        b == white_space(c),
{
    let u: u32 = c as u32;
    (0x09 <= u && u <= 0x0D) || u == 0x20 || u == 0x85 || u == 0xA0 || u == 0x1680 || (0x2000 <= u
        && u <= 0x200A) || u == 0x2028 || u == 0x2029 || u == 0x202F || u == 0x205F || u == 0x3000
}

/// Whether `c` is a decimal digit.
pub fn is_digit(c: char) -> (b: bool)
    ensures
        b == decimal_digit(c),
{
    '0' <= c && c <= '9'
}

/// Whether `c` can begin an identifier.
pub fn is_word_start(c: char) -> (b: bool)
    ensures
        b == word_start(c),
{
    ('a' <= c && c <= 'z') || ('A' <= c && c <= 'Z') || c == '_'
}

/// Whether `c` can continue an identifier.
pub fn is_word_char(c: char) -> (b: bool)
    ensures
        b == word_char(c),
{
    is_word_start(c) || is_digit(c)
}

/// The token of a single character, if it is one.
pub fn punctuation_token(c: char) -> (r: Option<Token>)
    ensures
        match punctuation(c) {
            Some(t) => r matches Some(tok) && tok@ == t,
            None => r is None,
        },
{
    if c == '+' {
        Some(Token::Add)
    } else if c == '-' {
        Some(Token::Sub)
    } else if c == '*' {
        Some(Token::Mul)
    } else if c == '/' {
        Some(Token::Div)
    } else if c == '%' {
        Some(Token::Mod)
    } else if c == '(' {
        Some(Token::ParL)
    } else if c == ')' {
        Some(Token::ParR)
    } else if c == '=' {
        Some(Token::Assign)
    } else if c == ';' {
        Some(Token::Semicolon)
    } else {
        None
    }
}

/// Moves the cursor past the white space that it stands on. A cursor at or
/// past the end of the buffer stays.
pub fn skip_whitespace(buf: &[char], idx: &mut usize)
    ensures
        *final(idx) == *old(idx) + run_len(buf@, *old(idx) as int, Class::Space),
{
    while *idx < buf.len() && is_whitespace(buf[*idx])
        invariant
            *old(idx) <= *idx,
            *idx + run_len(buf@, *idx as int, Class::Space) == *old(idx) + run_len(
                buf@,
                *old(idx) as int,
                Class::Space,
            ),
        decreases buf.len() - *idx,
    {
        *idx += 1;
    }
}

/// Reads the longest run of digits at the cursor and moves the cursor past
/// it. The result is the run's decimal value, reduced to the width of `usize`.
/// Where no digit stands at the cursor, or the cursor is at or past the end
/// of the buffer, the run is empty: the result is 0 and the cursor stays.
pub fn read_num(buf: &[char], idx: &mut usize) -> (n: usize)
    ensures
        *final(idx) == *old(idx) + run_len(buf@, *old(idx) as int, Class::Digit),
        n == number_value(run_text(buf@, *old(idx) as int, Class::Digit)),
{
    let mut ret: usize = 0;
    proof {
        lemma_small_mod(0, (usize::MAX + 1) as nat);
    }
    if *idx > buf.len() {
        return ret;
    }
    proof {
        assert(buf@.subrange(*idx as int, *idx as int) =~= Seq::empty());
    }
    while *idx < buf.len() && is_digit(buf[*idx])
        invariant
            *old(idx) <= *idx <= buf.len(),
            *idx + run_len(buf@, *idx as int, Class::Digit) == *old(idx) + run_len(
                buf@,
                *old(idx) as int,
                Class::Digit,
            ),
            ret == number_value(buf@.subrange(*old(idx) as int, *idx as int)),
        decreases buf.len() - *idx,
    {
        let d: usize = (buf[*idx] as u32 - '0' as u32) as usize;
        proof {
            let before = buf@.subrange(*old(idx) as int, *idx as int);
            let after = buf@.subrange(*old(idx) as int, *idx + 1);
            assert(after.drop_last() == before);
            assert(after.last() == buf@[*idx as int]);
            lemma_number_step(decimal_value(before), d as nat);
        }
        ret = ret.wrapping_mul(10).wrapping_add(d);
        *idx += 1;
    }
    ret
}

/// Taking the value modulo the width of `usize` at every digit gives the
/// value modulo that width.
proof fn lemma_number_step(v: nat, d: nat)
    requires
        d < 10,
    ensures
        ({
            let m = (usize::MAX + 1) as nat;
            let low = (v % m) as usize;
            vstd::wrapping::usize_specs::wrapping_add(
                vstd::wrapping::usize_specs::wrapping_mul(low, 10),
                d as usize,
            ) == (v * 10 + d) % m
        }),
{
    let m = (usize::MAX + 1) as int;
    let v = v as int;
    let d = d as int;
    lemma_mul_mod_noop(v, 10, m);
    lemma_small_mod(10, m as nat);
    lemma_add_mod_noop(v * 10, d, m);
    lemma_small_mod(d as nat, m as nat);
    let a = ((v % m) * 10) % m;
    assert(a == (v * 10) % m);
    assert((a + d) % m == (v * 10 + d) % m);
    if a + d >= m {
        assert((a + d) % m == a + d - m) by {
            vstd::arithmetic::div_mod::lemma_mod_sub_multiples_vanish(a + d, m);
            lemma_small_mod((a + d - m) as nat, m as nat);
        }
    } else {
        lemma_small_mod((a + d) as nat, m as nat);
    }
}

/// Reads the longest run of identifier characters at the cursor and moves
/// the cursor past it. Where none stands at the cursor, or the cursor is at
/// or past the end of the buffer, the run is empty and the cursor stays.
pub fn read_id(buf: &[char], idx: &mut usize) -> (id: String)
    ensures
        *final(idx) == *old(idx) + run_len(buf@, *old(idx) as int, Class::Word),
        id@ == run_text(buf@, *old(idx) as int, Class::Word),
{
    let mut id = String::new();
    if *idx > buf.len() {
        return id;
    }
    assert(buf@.subrange(*idx as int, *idx as int) =~= Seq::empty());
    while *idx < buf.len() && is_word_char(buf[*idx])
        invariant
            *old(idx) <= *idx <= buf.len(),
            *idx + run_len(buf@, *idx as int, Class::Word) == *old(idx) + run_len(
                buf@,
                *old(idx) as int,
                Class::Word,
            ),
            id@ == buf@.subrange(*old(idx) as int, *idx as int),
        decreases buf.len() - *idx,
    {
        id.push(buf[*idx]);
        assert(id@ == buf@.subrange(*old(idx) as int, *idx + 1));
        *idx += 1;
    }
    id
}

/// The tokens of the text in `buf`, closed by `Eof`, or the first character
/// that begins no token.
pub fn tokenize(buf: &[char]) -> (r: Result<Vec<Token>, LexError>)
    ensures
        match lex(buf@) {
            Ok(tokens) => r matches Ok(toks) && token_values(toks@) == tokens,
            Err(e) => r == Err::<Vec<Token>, LexError>(e),
        },
        r matches Ok(toks) ==> toks@.len() >= 1 && toks@.last()@ is Eof && forall|k: int|
            0 <= k < toks@.len() - 1 ==> !((#[trigger] toks@[k])@ is Eof),
{
    proof {
        lemma_lex_ends_with_eof(buf@, 0);
    }
    let mut idx: usize = 0;
    let mut toks: Vec<Token> = Vec::new();
    skip_whitespace(buf, &mut idx);
    proof {
        lemma_run(buf@, 0, Class::Space);
        lemma_lex_skips_space(buf@, 0);
        assert(token_values(toks@) =~= Seq::empty());
        assert(prepend(Seq::empty(), lex(buf@)) == lex(buf@)) by {
            if let Ok(ts) = lex(buf@) {
                assert(Seq::<SpecToken>::empty() + ts =~= ts);
            }
        }
    }
    while idx < buf.len() && buf[idx] != '\0'
        invariant
            idx <= buf.len(),
            run_len(buf@, idx as int, Class::Space) == 0,
            prepend(token_values(toks@), lex_from(buf@, idx as int)) == lex(buf@),
        decreases buf.len() - idx,
    {
        let c = buf[idx];
        let ghost start = idx as int;
        let ghost before = token_values(toks@);
        proof {
            assert(!at_end(buf@, start));
            lemma_run(buf@, start + 1, Class::Digit);
            lemma_run(buf@, start + 1, Class::Word);
        }
        let tok = match punctuation_token(c) {
            Some(t) => {
                idx += 1;
                t
            },
            None => {
                if is_digit(c) {
                    Token::Num(read_num(buf, &mut idx))
                } else if is_word_start(c) {
                    Token::Id(read_id(buf, &mut idx))
                } else {
                    return Err(LexError { ch: c, pos: idx });
                }
            },
        };
        assert(idx == start + token_len(buf@, start));
        assert(token_here(buf@, start) == Ok::<SpecToken, LexError>(tok@));
        toks.push(tok);
        let ghost next = idx as int;
        skip_whitespace(buf, &mut idx);
        proof {
            lemma_run(buf@, next, Class::Space);
            lemma_lex_skips_space(buf@, next);
            assert(token_values(toks@) =~= before.push(tok@));
            let tail = lex_from(buf@, idx as int);
            assert(lex_from(buf@, start) == prepend(seq![tok@], tail));
            if let Ok(ts) = tail {
                assert(before + (seq![tok@] + ts) =~= before.push(tok@) + ts);
            }
        }
    }
    let ghost before = token_values(toks@);
    toks.push(Token::Eof);
    proof {
        assert(at_end(buf@, idx as int));
        assert(lex_from(buf@, idx as int) == Ok::<Seq<SpecToken>, LexError>(seq![SpecToken::Eof]));
        assert(token_values(toks@) =~= before + seq![SpecToken::Eof]);
        assert(lex(buf@) == Ok::<Seq<SpecToken>, LexError>(token_values(toks@)));
        assert forall|k: int| 0 <= k < toks@.len() - 1 implies !((#[trigger] toks@[k])@ is Eof) by {
            assert(token_values(toks@)[k] == toks@[k]@);
        }
    }
    Ok(toks)
}

} // verus!
