//! The tokenizer turns the input line into a sequence of classified,
//! byte-spanned tokens. A `Cursor` walks the characters while recording the
//! byte position, so every token's span indexes the original UTF-8 text.

use vstd::prelude::*;

use crate::chars::{
    byte_len, byte_offset, char_len, digit_char, digit_val, is_ascii_digit, is_whitespace,
    is_xid_continue, lemma_byte_offset_bounds, lemma_byte_offset_is_encoded_len, utf8_len,
    whitespace_char, xid_continue_char,
};
use crate::span::Span;
use vstd::std_specs::iter::IteratorSpec;

verus! {

broadcast use vstd::string::axiom_spec_iter, vstd::string::next_postcondition;

/// Index just past the run of characters satisfying `p` that starts at `i`.
pub open spec fn run_end(s: Seq<char>, i: int, p: spec_fn(char) -> bool) -> int
    decreases s.len() - i,
{
    if 0 <= i && i < s.len() && p(s[i]) {
        run_end(s, i + 1, p)
    } else {
        i
    }
}

/// A run ends within the text, covers only characters satisfying `p`, and
/// stops right before the first character that does not satisfy it.
pub proof fn lemma_run_end(s: Seq<char>, i: int, p: spec_fn(char) -> bool)
    requires
        0 <= i <= s.len(),
    ensures
        i <= run_end(s, i, p) <= s.len(),
        forall|k: int| i <= k < run_end(s, i, p) ==> p(s[k]),
        run_end(s, i, p) < s.len() ==> !p(s[run_end(s, i, p)]),
    decreases s.len() - i,
{
    if i < s.len() && p(s[i]) {
        lemma_run_end(s, i + 1, p);
    }
}

/// The whitespace run predicate.
pub open spec fn ws_pred() -> spec_fn(char) -> bool {
    |c: char| whitespace_char(c)
}

/// The identifier-continue run predicate.
pub open spec fn xid_pred() -> spec_fn(char) -> bool {
    |c: char| xid_continue_char(c)
}

/// The ASCII-digit run predicate.
pub open spec fn digit_pred() -> spec_fn(char) -> bool {
    |c: char| digit_char(c)
}

/// A cursor over the input characters. The cursor's job is to record the
/// byte position of the characters so we can give our tokens a span.
pub struct Cursor {
    /// The characters of the input.
    chars: Vec<char>,
    /// The index of the next character.
    pos: usize,
    /// The byte position of the next character.
    byte_pos: usize,
}

impl Cursor {
    /// The characters this cursor walks.
    pub closed spec fn text(&self) -> Seq<char> {
        self.chars@
    }

    /// The index of the next character.
    pub closed spec fn position(&self) -> int {
        self.pos as int
    }

    /// The byte offset of the next character.
    pub closed spec fn byte_position(&self) -> int {
        self.byte_pos as int
    }

    /// The cursor sits on a character index, its byte position is the byte
    /// offset of that index, and the whole text fits in byte-addressable
    /// range.
    pub closed spec fn wf(&self) -> bool {
        &&& self.pos <= self.chars@.len()
        &&& self.byte_pos == byte_offset(self.chars@, self.pos as int)
        &&& byte_len(self.chars@) <= usize::MAX
    }

    /// Creates a new cursor from an input string.
    pub fn new(input: &str) -> (r: Cursor)
        ensures
            r.wf(),
            r.text() == input@,
            r.position() == 0,
            r.byte_position() == 0,
    {
        let bytes = input.as_bytes();
        let total: usize = bytes.len();
        let chars = chars_vec(input);
        proof {
            lemma_byte_offset_is_encoded_len(chars@, chars@.len() as int);
            assert(chars@.take(chars@.len() as int) =~= chars@);
        }
        Cursor { chars, pos: 0, byte_pos: 0 }
    }

    /// Peeks the next character *without advancing*.
    pub fn peek(&self) -> (r: Option<char>)
        requires
            self.wf(),
        ensures
            r == (if self.position() < self.text().len() {
                Some(self.text()[self.position()])
            } else {
                None::<char>
            }),
    {
        if self.pos < self.chars.len() {
            Some(self.chars[self.pos])
        } else {
            None
        }
    }

    /// Advances to the next character, moving the byte position past its
    /// UTF-8 encoding.
    pub fn next(&mut self) -> (r: Option<char>)
        requires
            old(self).wf(),
        ensures
            final(self).wf(),
            final(self).text() == old(self).text(),
            old(self).position() < old(self).text().len() ==> {
                &&& r == Some(old(self).text()[old(self).position()])
                &&& final(self).position() == old(self).position() + 1
                &&& final(self).byte_position() == old(self).byte_position() + char_len(
                    old(self).text()[old(self).position()],
                )
            },
            old(self).position() >= old(self).text().len() ==> r == None::<char> && *final(self)
                == *old(self),
    {
        if self.pos < self.chars.len() {
            let c = self.chars[self.pos];
            proof {
                lemma_byte_offset_bounds(self.chars@, self.pos + 1, self.chars@.len() as int);
            }
            self.pos = self.pos + 1;
            self.byte_pos = self.byte_pos + utf8_len(c);
            Some(c)
        } else {
            None
        }
    }

    /// Advances the cursor while the iterator still has items and while
    /// `predicate` is true. The ghost argument names the property that
    /// `predicate` decides.
    pub fn skip_while<F: Fn(char) -> bool>(
        &mut self,
        predicate: F,
        Ghost(p): Ghost<spec_fn(char) -> bool>,
    )
        requires
            old(self).wf(),
            forall|c: char| #[trigger] call_requires(predicate, (c,)),
            forall|c: char, b: bool| #[trigger] call_ensures(predicate, (c,), b) ==> b == p(c),
        ensures
            final(self).wf(),
            final(self).text() == old(self).text(),
            final(self).position() == run_end(old(self).text(), old(self).position(), p),
            final(self).byte_position() == byte_offset(
                old(self).text(),
                run_end(old(self).text(), old(self).position(), p),
            ),
    {
        loop
            invariant
                self.wf(),
                self.text() == old(self).text(),
                old(self).position() <= self.position() <= self.text().len(),
                run_end(self.text(), self.position(), p) == run_end(
                    self.text(),
                    old(self).position(),
                    p,
                ),
                forall|c: char| #[trigger] call_requires(predicate, (c,)),
                forall|c: char, b: bool| #[trigger] call_ensures(predicate, (c,), b) ==> b == p(c),
            ensures
                self.wf(),
                self.text() == old(self).text(),
                run_end(self.text(), self.position(), p) == run_end(
                    self.text(),
                    old(self).position(),
                    p,
                ),
                self.position() == self.text().len() || !p(self.text()[self.position()]),
            decreases self.text().len() - self.position(),
        {
            match self.peek() {
                Some(c) => {
                    if predicate(c) {
                        self.next();
                    } else {
                        break;
                    }
                },
                None => {
                    break;
                },
            }
        }
    }
}

/// Collects the characters of a string slice.
pub(crate) fn chars_vec(input: &str) -> (r: Vec<char>)
    ensures
        r@ == input@,
{
    let mut it = input.chars();
    let mut v: Vec<char> = Vec::new();
    loop
        invariant
            v@ + it.remaining() == input@,
            it.decrease() is Some,
        ensures
            v@ + it.remaining() == input@,
            it.remaining().len() == 0,
        decreases it.decrease()->0,
    {
        match it.next() {
            Some(c) => {
                v.push(c);
            },
            None => {
                break;
            },
        }
    }
    proof {
        assert(v@ =~= input@);
    }
    v
}

/// A token kind for special tokens.
#[derive(Debug, PartialEq, Eq, Structural, Copy, Clone)]
pub enum SpecialKind {
    /// The quit instruction. We'll use this to let the user exit the
    /// calculator.
    Quit,
    /// An unrecognized special command.
    Unrecognized,
}

/// A token kind for arithmetic operations.
#[derive(Debug, PartialEq, Eq, Structural, Copy, Clone)]
pub enum OperationKind {
    /// `+`.
    Plus,
    /// `-`.
    Minus,
    /// `*`.
    Star,
    /// `/`.
    Slash,
}

/// The exact decimal value of a number literal: the digits with the decimal
/// point removed, and how many of them sit after the point. `"123.25"` is
/// mantissa 12325 at scale 2. A mantissa too large for 128 bits saturates.
#[derive(Debug, PartialEq, Eq, Structural, Copy, Clone)]
pub struct NumberLit {
    /// The digits of the literal, read as one integer.
    pub mantissa: u128,
    /// How many digits stand after the decimal point.
    pub scale: usize,
}

/// The kind of our tokens.
#[derive(Debug, PartialEq, Eq, Structural, Copy, Clone)]
pub enum TokenKind {
    /// Whitespace tokens like ` `, `\t`, `\n`, `\r`...
    Whitespace,
    /// Special tokens.
    Special(SpecialKind),
    /// Numbers, kept as their exact decimal value.
    Number(NumberLit),
    /// Symbols for arithmetic operations.
    Operation(OperationKind),
    /// `(`.
    OpenParenthesis,
    /// `)`.
    CloseParenthesis,
    /// Unrecognized tokens.
    Unrecognized,
}

/// Data structure for our tokens.
#[derive(Debug, PartialEq, Eq, Structural, Copy, Clone)]
pub struct Token {
    /// The kind of this token.
    pub kind: TokenKind,
    /// The span of this token.
    pub span: Span,
}

/// The identifier that names the quit command.
pub open spec fn quit_word() -> Seq<char> {
    seq!['q', 'u', 'i', 't']
}

/// Reads a digit string as an integer, continuing from the value `w` of the
/// digits already read.
pub open spec fn value_from(w: int, s: Seq<char>) -> int
    decreases s.len(),
{
    if s.len() == 0 {
        w
    } else {
        value_from(w, s.drop_last()) * 10 + digit_val(s.last())
    }
}

/// The integer a digit string denotes.
pub open spec fn digits_value(s: Seq<char>) -> int {
    value_from(0, s)
}

/// Clamps an integer into the `u128` range.
pub open spec fn sat128(v: int) -> u128 {
    if v > u128::MAX {
        u128::MAX as u128
    } else if v < 0 {
        0u128
    } else {
        v as u128
    }
}

/// One step of saturating digit accumulation.
pub open spec fn sat_push(m: u128, c: char) -> u128 {
    sat128(m * 10 + digit_val(c))
}

/// Saturating accumulation of a digit string onto `m`.
pub open spec fn sat_acc(m: u128, s: Seq<char>) -> u128
    decreases s.len(),
{
    if s.len() == 0 {
        m
    } else {
        sat_push(sat_acc(m, s.drop_last()), s.last())
    }
}

/// The number literal with integer digits `ints` and fraction digits `fracs`.
pub open spec fn lit_of(ints: Seq<char>, fracs: Seq<char>) -> NumberLit {
    NumberLit {
        mantissa: sat128(digits_value(ints + fracs)),
        scale: fracs.len() as usize,
    }
}

/// Reading digits never decreases the value below where it started.
proof fn lemma_value_from_nonneg(w: int, s: Seq<char>)
    requires
        w >= 0,
        forall|k: int| 0 <= k < s.len() ==> digit_char(#[trigger] s[k]),
    ensures
        value_from(w, s) >= 0,
    decreases s.len(),
{
    if s.len() > 0 {
        assert(digit_char(s.last()));
        lemma_value_from_nonneg(w, s.drop_last());
    }
}

/// Saturating accumulation computes the clamped value of the digits.
proof fn lemma_sat_acc_value(w: int, s: Seq<char>)
    requires
        w >= 0,
        forall|k: int| 0 <= k < s.len() ==> digit_char(#[trigger] s[k]),
    ensures
        sat_acc(sat128(w), s) == sat128(value_from(w, s)),
    decreases s.len(),
{
    if s.len() > 0 {
        let u = value_from(w, s.drop_last());
        lemma_sat_acc_value(w, s.drop_last());
        lemma_value_from_nonneg(w, s.drop_last());
        assert(digit_char(s.last()));
        assert(0 <= digit_val(s.last()) <= 9);
        if u > u128::MAX {
            assert(sat_push(sat128(u), s.last()) == sat128(u * 10 + digit_val(s.last())))
                by (nonlinear_arith)
                requires u > u128::MAX, 0 <= digit_val(s.last()) <= 9, sat128(u) == u128::MAX
            {
            }
        }
    }
}

/// Index just past the token that starts at character index `i`.
pub open spec fn token_end_at(s: Seq<char>, i: int) -> int {
    let c = s[i];
    if whitespace_char(c) {
        run_end(s, i + 1, ws_pred())
    } else if c == '?' {
        run_end(s, i + 1, xid_pred())
    } else if digit_char(c) {
        let d = run_end(s, i + 1, digit_pred());
        if d < s.len() && s[d] == '.' {
            run_end(s, d + 1, digit_pred())
        } else {
            d
        }
    } else {
        i + 1
    }
}

/// The kind of the token that starts at character index `i`.
pub open spec fn token_kind_at(s: Seq<char>, i: int) -> TokenKind {
    let c = s[i];
    if whitespace_char(c) {
        TokenKind::Whitespace
    } else if c == '?' {
        if s.subrange(i + 1, token_end_at(s, i)) == quit_word() {
            TokenKind::Special(SpecialKind::Quit)
        } else {
            TokenKind::Special(SpecialKind::Unrecognized)
        }
    } else if digit_char(c) {
        let d = run_end(s, i + 1, digit_pred());
        let e = token_end_at(s, i);
        if d < s.len() && s[d] == '.' {
            TokenKind::Number(lit_of(s.subrange(i, d), s.subrange(d + 1, e)))
        } else {
            TokenKind::Number(lit_of(s.subrange(i, d), Seq::empty()))
        }
    } else if c == '+' {
        TokenKind::Operation(OperationKind::Plus)
    } else if c == '-' {
        TokenKind::Operation(OperationKind::Minus)
    } else if c == '*' {
        TokenKind::Operation(OperationKind::Star)
    } else if c == '/' {
        TokenKind::Operation(OperationKind::Slash)
    } else if c == '(' {
        TokenKind::OpenParenthesis
    } else if c == ')' {
        TokenKind::CloseParenthesis
    } else {
        TokenKind::Unrecognized
    }
}

/// The token that starts at character index `i`, with its byte span.
pub open spec fn token_at(s: Seq<char>, i: int) -> Token {
    Token {
        kind: token_kind_at(s, i),
        span: Span {
            start: byte_offset(s, i) as usize,
            end: byte_offset(s, token_end_at(s, i)) as usize,
        },
    }
}

/// A token covers at least one character and ends within the text.
pub proof fn lemma_token_end_at(s: Seq<char>, i: int)
    requires
        0 <= i < s.len(),
    ensures
        i < token_end_at(s, i) <= s.len(),
{
    lemma_run_end(s, i + 1, ws_pred());
    lemma_run_end(s, i + 1, xid_pred());
    lemma_run_end(s, i + 1, digit_pred());
    let d = run_end(s, i + 1, digit_pred());
    if d < s.len() {
        lemma_run_end(s, d + 1, digit_pred());
    }
}

/// All the tokens of `s` from character index `i` on, whitespace included.
pub open spec fn tokens_from(s: Seq<char>, i: int) -> Seq<Token>
    decreases s.len() - i,
    via tokens_from_dec
{
    if i < 0 || i >= s.len() {
        Seq::empty()
    } else {
        seq![token_at(s, i)] + tokens_from(s, token_end_at(s, i))
    }
}

#[via_fn]
proof fn tokens_from_dec(s: Seq<char>, i: int) {
    if 0 <= i && i < s.len() {
        lemma_token_end_at(s, i);
    }
}

/// Whether a token is whitespace.
pub open spec fn whitespace_token(t: Token) -> bool {
    t.kind is Whitespace
}

/// Keeps the tokens that are not whitespace.
pub open spec fn nonws() -> spec_fn(Token) -> bool {
    |t: Token| !whitespace_token(t)
}

/// The token sequence the tokenizer hands to the parser: every token of the
/// text, in order, with the whitespace tokens filtered out.
pub open spec fn lexed(s: Seq<char>) -> Seq<Token> {
    tokens_from(s, 0).filter(nonws())
}

/// Filtering a one-token sequence keeps or drops that token.
pub proof fn lemma_filter_singleton(t: Token, p: spec_fn(Token) -> bool)
    ensures
        seq![t].filter(p) == (if p(t) {
            seq![t]
        } else {
            Seq::<Token>::empty()
        }),
{
    reveal_with_fuel(Seq::filter, 2);
    assert(seq![t].drop_last() =~= Seq::<Token>::empty());
    if p(t) {
        assert(seq![t].filter(p) =~= seq![t]);
    } else {
        assert(seq![t].filter(p) =~= Seq::<Token>::empty());
    }
}


/// One step of saturating digit accumulation, executably.
fn push_digit(m: u128, c: char) -> (r: u128)
    requires
        digit_char(c),
    ensures
        r == sat_push(m, c),
{
    let d = (c as u32 - 48) as u128;
    match m.checked_mul(10) {
        Some(x) => match x.checked_add(d) {
            Some(y) => y,
            None => u128::MAX,
        },
        None => u128::MAX,
    }
}

/// Reads the number literal written on `chars` from `from` (a digit) up to
/// `to`, the end of the number token that starts at `from`.
fn read_lit(chars: &Vec<char>, from: usize, to: usize) -> (r: NumberLit)
    requires
        from < to <= chars@.len(),
        digit_char(chars@[from as int]),
        to == ({
            let d = run_end(chars@, from + 1, digit_pred());
            if d < chars@.len() && chars@[d] == '.' {
                run_end(chars@, d + 1, digit_pred())
            } else {
                d
            }
        }),
    ensures
        r == ({
            let s = chars@;
            let d = run_end(s, from + 1, digit_pred());
            if d < s.len() && s[d] == '.' {
                lit_of(s.subrange(from as int, d), s.subrange(d + 1, to as int))
            } else {
                lit_of(s.subrange(from as int, d), Seq::<char>::empty())
            }
        }),
{
    let ghost s = chars@;
    let ghost d = run_end(s, from + 1, digit_pred());
    proof {
        lemma_run_end(s, from + 1, digit_pred());
        if d < s.len() && s[d] == '.' {
            lemma_run_end(s, d + 1, digit_pred());
        }
        assert(s.subrange(from as int, from as int) =~= Seq::<char>::empty());
    }
    let mut m: u128 = 0;
    let mut k = from;
    while k < to && chars[k] != '.'
        invariant
            from <= k <= d <= to <= s.len(),
            s == chars@,
            d == run_end(s, from + 1, digit_pred()),
            digit_char(s[from as int]),
            forall|j: int| from + 1 <= j < d ==> digit_pred()(#[trigger] s[j]),
            m == sat_acc(0, s.subrange(from as int, k as int)),
            to == ({
                if d < s.len() && s[d] == '.' {
                    run_end(s, d + 1, digit_pred())
                } else {
                    d
                }
            }),
        ensures
            k == d,
            m == sat_acc(0, s.subrange(from as int, d)),
        decreases to - k,
    {
        proof {
            assert(k < d);
            assert(digit_char(s[k as int]));
            assert(s.subrange(from as int, k + 1).drop_last() =~= s.subrange(
                from as int,
                k as int,
            ));
            assert(s.subrange(from as int, k + 1).last() == s[k as int]);
        }
        m = push_digit(m, chars[k]);
        k = k + 1;
    }
    let dot = k;
    let ghost ints = s.subrange(from as int, d);
    proof {
        assert(forall|j: int| 0 <= j < ints.len() ==> digit_char(#[trigger] ints[j]));
    }
    if k < to {
        // chars[k] is the decimal point
        k = k + 1;
        proof {
            assert(d < s.len() && s[d] == '.');
            lemma_run_end(s, d + 1, digit_pred());
            assert(s.subrange(d + 1, d + 1) =~= Seq::<char>::empty());
            assert(ints + Seq::<char>::empty() =~= ints);
        }
        while k < to
            invariant
                d + 1 <= k <= to <= s.len(),
                s == chars@,
                d == run_end(s, from + 1, digit_pred()),
                to == run_end(s, d + 1, digit_pred()),
                ints == s.subrange(from as int, d),
                forall|j: int| d + 1 <= j < to ==> digit_pred()(#[trigger] s[j]),
                m == sat_acc(0, ints + s.subrange(d + 1, k as int)),
            ensures
                k == to,
                m == sat_acc(0, ints + s.subrange(d + 1, to as int)),
            decreases to - k,
        {
            proof {
                assert(digit_char(s[k as int]));
                let a = ints + s.subrange(d + 1, k as int);
                let b = ints + s.subrange(d + 1, k + 1);
                assert(b.drop_last() =~= a);
                assert(b.last() == s[k as int]);
            }
            m = push_digit(m, chars[k]);
            k = k + 1;
        }
        let ghost fracs = s.subrange(d + 1, to as int);
        proof {
            let all = ints + fracs;
            assert(forall|j: int| 0 <= j < all.len() ==> digit_char(#[trigger] all[j]));
            lemma_sat_acc_value(0, all);
            assert(sat128(0) == 0);
            assert(m == sat128(digits_value(all)));
            assert(fracs.len() == to - (d + 1));
        }
        NumberLit { mantissa: m, scale: to - (dot + 1) }
    } else {
        proof {
            assert(k == to && to == d);
            assert(ints + Seq::<char>::empty() =~= ints);
            lemma_sat_acc_value(0, ints);
            assert(sat128(0) == 0);
        }
        NumberLit { mantissa: m, scale: 0 }
    }
}


/// The tokenizer. Transforms an input string into a sequence of tokens.
pub struct Tokenizer {
    /// The source cursor.
    cursor: Cursor,
}

impl Tokenizer {
    /// The text being tokenized.
    pub closed spec fn text(&self) -> Seq<char> {
        self.cursor.text()
    }

    /// The index of the next character.
    pub closed spec fn position(&self) -> int {
        self.cursor.position()
    }

    /// The tokenizer's cursor is well formed.
    pub closed spec fn wf(&self) -> bool {
        self.cursor.wf()
    }

    /// Creates a new tokenizer from an input string.
    pub fn new(input: &str) -> (r: Tokenizer)
        ensures
            r.wf(),
            r.text() == input@,
            r.position() == 0,
    {
        Tokenizer { cursor: Cursor::new(input) }
    }

    /// Advances the cursor while the characters are whitespace.
    fn whitespace(&mut self)
        requires
            old(self).wf(),
        ensures
            final(self).wf(),
            final(self).text() == old(self).text(),
            final(self).position() == run_end(old(self).text(), old(self).position(), ws_pred()),
    {
        self.cursor.skip_while(
            (|c: char| -> (r: bool)
                ensures
                    r == whitespace_char(c),
                { is_whitespace(c) }),
            Ghost(ws_pred()),
        );
    }

    /// Advances the cursor while the characters are part of a single
    /// identifier.
    fn identifier(&mut self)
        requires
            old(self).wf(),
        ensures
            final(self).wf(),
            final(self).text() == old(self).text(),
            final(self).position() == run_end(old(self).text(), old(self).position(), xid_pred()),
    {
        self.cursor.skip_while(
            (|c: char| -> (r: bool)
                ensures
                    r == xid_continue_char(c),
                { is_xid_continue(c) }),
            Ghost(xid_pred()),
        );
    }

    /// Advances the cursor while the characters are part of a single number:
    /// a digit run, then optionally a decimal point and a second digit run.
    fn number(&mut self)
        requires
            old(self).wf(),
        ensures
            final(self).wf(),
            final(self).text() == old(self).text(),
            final(self).position() == ({
                let s = old(self).text();
                let d = run_end(s, old(self).position(), digit_pred());
                if d < s.len() && s[d] == '.' {
                    run_end(s, d + 1, digit_pred())
                } else {
                    d
                }
            }),
    {
        self.cursor.skip_while(
            (|c: char| -> (r: bool)
                ensures
                    r == digit_char(c),
                { is_ascii_digit(c) }),
            Ghost(digit_pred()),
        );
        let dotted = match self.cursor.peek() {
            Some(c) => c == '.',
            None => false,
        };
        if dotted {
            self.cursor.next();  // Consume the dot
            self.cursor.skip_while(
                (|c: char| -> (r: bool)
                    ensures
                        r == digit_char(c),
                    { is_ascii_digit(c) }),
                Ghost(digit_pred()),
            );
        }
    }

    /// Advances the cursor to create the single next token.
    /// This is the main tokenizing function.
    fn next_token(&mut self) -> (r: Option<Token>)
        requires
            old(self).wf(),
        ensures
            final(self).wf(),
            final(self).text() == old(self).text(),
            old(self).position() >= old(self).text().len() ==> r == None::<Token>
                && final(self).position() == old(self).position(),
            old(self).position() < old(self).text().len() ==> {
                &&& r == Some(token_at(old(self).text(), old(self).position()))
                &&& final(self).position() == token_end_at(old(self).text(), old(self).position())
            },
    {
        let ghost s = self.cursor.text();
        let ghost i = self.cursor.position();
        // Record the start of the token.
        let start = self.cursor.byte_pos;
        let start_pos = self.cursor.pos;
        // First, we take one single character.
        let c = match self.cursor.next() {
            Some(c) => c,
            // We consumed all the characters
            None => {
                return None;
            },
        };

        // Then, we match that character to find the kind of the token.
        let kind: TokenKind;
        if is_whitespace(c) {
            // Whitespace token.
            self.whitespace();
            kind = TokenKind::Whitespace;
        } else if c == '?' {
            // Special token.
            let ident_start = self.cursor.pos;
            self.identifier();
            let ident_end = self.cursor.pos;
            proof {
                lemma_run_end(s, i + 1, xid_pred());
            }
            let quit = ident_end - ident_start == 4 && self.cursor.chars[ident_start] == 'q'
                && self.cursor.chars[ident_start + 1] == 'u' && self.cursor.chars[ident_start + 2]
                == 'i' && self.cursor.chars[ident_start + 3] == 't';
            proof {
                let e = token_end_at(s, i);
                let ident = s.subrange(i + 1, e);
                if quit {
                    assert(ident =~= quit_word());
                } else {
                    if ident == quit_word() {
                        assert(ident.len() == 4);
                        assert(ident[0] == 'q' && ident[1] == 'u' && ident[2] == 'i' && ident[3]
                            == 't');
                        assert(false);
                    }
                }
            }
            kind = if quit {
                TokenKind::Special(SpecialKind::Quit)
            } else {
                TokenKind::Special(SpecialKind::Unrecognized)
            };
        } else if is_ascii_digit(c) {
            // Number token.
            self.number();
            let end_pos = self.cursor.pos;
            proof {
                lemma_run_end(s, i + 1, digit_pred());
                let d = run_end(s, i + 1, digit_pred());
                if d < s.len() && s[d] == '.' {
                    lemma_run_end(s, d + 1, digit_pred());
                }
            }
            kind = TokenKind::Number(read_lit(&self.cursor.chars, start_pos, end_pos));
        } else if c == '+' {
            kind = TokenKind::Operation(OperationKind::Plus);
        } else if c == '-' {
            kind = TokenKind::Operation(OperationKind::Minus);
        } else if c == '*' {
            kind = TokenKind::Operation(OperationKind::Star);
        } else if c == '/' {
            kind = TokenKind::Operation(OperationKind::Slash);
        } else if c == '(' {
            kind = TokenKind::OpenParenthesis;
        } else if c == ')' {
            kind = TokenKind::CloseParenthesis;
        } else {
            // Any other character is unrecognized.
            kind = TokenKind::Unrecognized;
        }

        // Record the end of the token; now we know its span.
        let end = self.cursor.byte_pos;
        proof {
            assert(kind == token_kind_at(s, i));
            assert(self.cursor.position() == token_end_at(s, i));
            assert(start as int == byte_offset(s, i));
            assert(end as int == byte_offset(s, token_end_at(s, i)));
        }
        Some(Token { kind, span: Span { start, end } })
    }


    /// Produces every token of the whole input, whitespace included.
    pub fn tokenize_all(self) -> (r: Vec<Token>)
        requires
            self.wf(),
            self.position() == 0,
        ensures
            r@ == tokens_from(self.text(), 0),
    {
        let mut this = self;
        let ghost orig = this.cursor.text();
        let mut out: Vec<Token> = Vec::new();
        proof {
            assert(out@ + tokens_from(orig, 0) =~= tokens_from(orig, 0));
        }
        loop
            invariant
                this.wf(),
                this.text() == orig,
                0 <= this.position() <= orig.len(),
                tokens_from(orig, 0) == out@ + tokens_from(orig, this.position()),
            ensures
                out@ == tokens_from(orig, 0),
            decreases orig.len() - this.position(),
        {
            let ghost pos = this.position();
            match this.next_token() {
                None => {
                    proof {
                        assert(tokens_from(orig, pos) =~= Seq::<Token>::empty());
                        assert(out@ + tokens_from(orig, pos) =~= out@);
                    }
                    break;
                },
                Some(t) => {
                    proof {
                        lemma_token_end_at(orig, pos);
                        assert(out@ + (seq![t] + tokens_from(orig, token_end_at(orig, pos)))
                            =~= (out@ + seq![t]) + tokens_from(orig, token_end_at(orig, pos)));
                    }
                    out.push(t);
                },
            }
        }
        out
    }

    /// Produces the tokens of the whole input, filtering out whitespace.
    pub fn tokenize(self) -> (r: Vec<Token>)
        requires
            self.wf(),
            self.position() == 0,
        ensures
            r@ == lexed(self.text()),
    {
        let mut this = self;
        let ghost orig = this.cursor.text();
        let mut out: Vec<Token> = Vec::new();
        proof {
            assert(out@ + tokens_from(orig, 0).filter(nonws()) =~= tokens_from(orig, 0).filter(
                nonws(),
            ));
        }
        loop
            invariant
                this.wf(),
                this.text() == orig,
                0 <= this.position() <= orig.len(),
                lexed(orig) == out@ + tokens_from(orig, this.position()).filter(nonws()),
            ensures
                out@ == lexed(orig),
            decreases orig.len() - this.position(),
        {
            let ghost pos = this.position();
            match this.next_token() {
                None => {
                    proof {
                        assert(tokens_from(orig, pos) =~= Seq::<Token>::empty());
                        reveal_with_fuel(Seq::<Token>::filter, 1);
                        assert(out@ + tokens_from(orig, pos).filter(nonws()) =~= out@);
                    }
                    break;
                },
                Some(t) => {
                    proof {
                        lemma_token_end_at(orig, pos);
                        assert(tokens_from(orig, pos) == seq![t] + tokens_from(
                            orig,
                            token_end_at(orig, pos),
                        ));
                        Seq::<Token>::filter_distributes_over_add(
                            seq![t],
                            tokens_from(orig, token_end_at(orig, pos)),
                            nonws(),
                        );
                        lemma_filter_singleton(t, nonws());
                    }
                    match t.kind {
                        TokenKind::Whitespace => {
                            proof {
                                assert(seq![t].filter(nonws()) =~= Seq::<Token>::empty());
                                assert(out@ + (seq![t].filter(nonws()) + tokens_from(
                                    orig,
                                    token_end_at(orig, pos),
                                ).filter(nonws())) =~= out@ + tokens_from(
                                    orig,
                                    token_end_at(orig, pos),
                                ).filter(nonws()));
                            }
                        },
                        _ => {
                            proof {
                                assert(seq![t].filter(nonws()) =~= seq![t]);
                                assert(out@ + (seq![t] + tokens_from(
                                    orig,
                                    token_end_at(orig, pos),
                                ).filter(nonws())) =~= (out@ + seq![t]) + tokens_from(
                                    orig,
                                    token_end_at(orig, pos),
                                ).filter(nonws()));
                            }
                            out.push(t);
                        },
                    }
                },
            }
        }
        out
    }
}

} // verus!
