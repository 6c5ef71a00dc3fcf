//! The error formatter: maps a parse failure plus the original input line to
//! a human-readable message — an explanation naming the expected tokens and
//! the text found, the echoed source line, and a caret underline anchored at
//! the offending span.

use vstd::prelude::*;

use crate::chars::{byte_len, byte_offset, char_len, lemma_byte_offset_bounds,
    lemma_byte_offset_is_encoded_len, utf8_len};
use crate::parser::{error_span_of, lemma_parse_error_spans, parse_line, ParserError};
use crate::span::Span;
use crate::tokenizer::{chars_vec, lemma_token_end_at, lexed, nonws, token_at, token_end_at, tokens_from, Token};
use vstd::pervasive::unreached;
use vstd::string::StringExecFns;

verus! {

/// The character index whose byte offset is `b`, scanning from index `k` on.
pub open spec fn char_idx_from(s: Seq<char>, k: int, b: int) -> Option<int>
    decreases s.len() - k,
{
    if k < 0 || k > s.len() {
        None
    } else if byte_offset(s, k) == b {
        Some(k)
    } else if k == s.len() {
        None
    } else {
        char_idx_from(s, k + 1, b)
    }
}

/// The character index whose byte offset is `b`, if `b` lands on a character
/// boundary of `s`.
pub open spec fn char_idx(s: Seq<char>, b: int) -> Option<int> {
    char_idx_from(s, 0, b)
}

/// Once the running byte offset has passed `b`, no later character starts
/// at `b`.
proof fn lemma_char_idx_past(s: Seq<char>, k: int, b: int)
    requires
        0 <= k <= s.len(),
        byte_offset(s, k) > b,
    ensures
        char_idx_from(s, k, b) == None::<int>,
    decreases s.len() - k,
{
    if k < s.len() {
        lemma_char_idx_past(s, k + 1, b);
    }
}

/// The scan finds the index whose byte offset it was given.
proof fn lemma_char_idx_finds(s: Seq<char>, j: int, k: int)
    requires
        0 <= j <= k <= s.len(),
    ensures
        char_idx_from(s, j, byte_offset(s, k)) == Some(k),
    decreases k - j,
{
    if j < k {
        lemma_byte_offset_bounds(s, j, k);
        lemma_char_idx_finds(s, j + 1, k);
    }
}

/// Character boundaries map to their own byte offsets.
pub proof fn lemma_char_idx_of_offset(s: Seq<char>, k: int)
    requires
        0 <= k <= s.len(),
    ensures
        char_idx(s, byte_offset(s, k)) == Some(k),
{
    lemma_char_idx_finds(s, 0, k);
}

/// A found character index lies in the text and sits at the byte offset
/// that was looked up.
pub proof fn lemma_char_idx_some(s: Seq<char>, k: int, b: int)
    requires
        0 <= k <= s.len(),
        char_idx_from(s, k, b) is Some,
    ensures
        k <= char_idx_from(s, k, b).unwrap() <= s.len(),
        byte_offset(s, char_idx_from(s, k, b).unwrap()) == b,
    decreases s.len() - k,
{
    if byte_offset(s, k) != b && k < s.len() {
        lemma_char_idx_some(s, k + 1, b);
    }
}

/// A span is valid for a line when both of its byte offsets land on
/// character boundaries, in order.
pub open spec fn span_wf(s: Seq<char>, sp: Span) -> bool {
    &&& char_idx(s, sp.start as int) is Some
    &&& char_idx(s, sp.end as int) is Some
    &&& sp.start <= sp.end
}

/// The text a span points at, or the end-of-line placeholder when the span
/// is absent.
pub open spec fn spanned_text(s: Seq<char>, sp: Option<Span>) -> Seq<char> {
    match sp {
        None => "<EOL>"@,
        Some(x) => s.subrange(
            char_idx(s, x.start as int).unwrap(),
            char_idx(s, x.end as int).unwrap(),
        ),
    }
}

/// An error fits a line when its span is valid for the line; an error at
/// end-of-input asks only for a non-empty line, whose last character then
/// anchors the underline.
pub open spec fn error_wf(e: ParserError, s: Seq<char>) -> bool {
    match error_span_of(e) {
        Some(sp) => span_wf(s, sp),
        None => s.len() > 0,
    }
}

/// The span to underline: the error's own, or the last character of the
/// line for an error at end-of-input.
pub open spec fn unwrapped_span(s: Seq<char>, sp: Option<Span>) -> Span {
    match sp {
        Some(x) => x,
        None => Span {
            start: (byte_len(s) - char_len(s[s.len() - 1])) as usize,
            end: byte_len(s) as usize,
        },
    }
}

/// The explanation prefix for each error variant.
pub open spec fn error_prefix(e: ParserError) -> Seq<char> {
    match e {
        ParserError::UnrecognizedSpecial(_) => "expected `?quit`, found `"@,
        ParserError::ExpectedBinaryOp(_) => "expected one of `+`, `-`, `*`, `/`, found `"@,
        ParserError::ExpectedExprStart(_) => "expected one of `-`, `(`, or a number, found `"@,
        ParserError::UnclosedParenthesis(_) => "expected `)`, found `"@,
    }
}

/// `n` copies of one character.
pub open spec fn repeat_char(c: char, n: int) -> Seq<char> {
    Seq::new(if n < 0 {
        0nat
    } else {
        n as nat
    }, |i: int| c)
}

/// The character index where the underline starts.
pub open spec fn underline_start(e: ParserError, s: Seq<char>) -> int {
    char_idx(s, unwrapped_span(s, error_span_of(e)).start as int).unwrap()
}

/// The character index where the underline ends.
pub open spec fn underline_end(e: ParserError, s: Seq<char>) -> int {
    char_idx(s, unwrapped_span(s, error_span_of(e)).end as int).unwrap()
}

/// The whole diagnostic: the explanation line naming what was expected and
/// what was found, then the echoed source line, then an underline whose
/// padding and width are counted in characters.
pub open spec fn formatted_error(e: ParserError, s: Seq<char>) -> Seq<char> {
    "error: "@ + error_prefix(e) + spanned_text(s, error_span_of(e)) + "`\n      "@ + s
        + "      "@ + repeat_char(' ', underline_start(e, s)) + repeat_char(
        '^',
        underline_end(e, s) - underline_start(e, s),
    )
}

/// The characters of the line, together with the fact that its UTF-8 length
/// is machine-representable.
fn line_chars(input: &str) -> (r: Vec<char>)
    ensures
        r@ == input@,
        byte_len(input@) <= usize::MAX,
{
    let bytes = input.as_bytes();
    let total: usize = bytes.len();
    let chars = chars_vec(input);
    proof {
        lemma_byte_offset_is_encoded_len(chars@, chars@.len() as int);
        assert(chars@.take(chars@.len() as int) =~= chars@);
    }
    chars
}

/// Relies on `String::push` of std: appends the given character to the end
/// of the string.
#[verifier::external_body]
fn push_char(s: &mut String, c: char)
    ensures
        final(s)@ == old(s)@.push(c),
{
    s.push(c)
}

/// Finds the character index sitting at byte offset `b`, if any.
fn find_char_idx(chars: &Vec<char>, b: usize) -> (r: Option<usize>)
    requires
        byte_len(chars@) <= usize::MAX,
    ensures
        r matches Some(k) ==> char_idx(chars@, b as int) == Some(k as int),
        r is None ==> char_idx(chars@, b as int) == None::<int>,
{
    let ghost s = chars@;
    let mut k: usize = 0;
    let mut byte: usize = 0;
    loop
        invariant
            s == chars@,
            byte_len(s) <= usize::MAX,
            0 <= k <= s.len(),
            byte == byte_offset(s, k as int),
            char_idx(s, b as int) == char_idx_from(s, k as int, b as int),
        decreases s.len() - k,
    {
        if byte == b {
            return Some(k);
        }
        if byte > b {
            proof {
                lemma_char_idx_past(s, k as int, b as int);
            }
            return None;
        }
        if k == chars.len() {
            return None;
        }
        proof {
            lemma_byte_offset_bounds(s, k + 1, s.len() as int);
        }
        byte = byte + utf8_len(chars[k]);
        k = k + 1;
    }
}

/// Gets the string the span points to.
/// If the span is `None`, returns `"<EOL>"` (end of line) instead.
pub fn spanned_value(input: &str, span: Option<Span>) -> (r: String)
    requires
        span matches Some(sp) ==> span_wf(input@, sp),
    ensures
        r@ == spanned_text(input@, span),
{
    match span {
        None => "<EOL>".to_owned(),
        Some(sp) => {
            let ghost s = input@;
            let chars = line_chars(input);
            let c1 = match find_char_idx(&chars, sp.start) {
                Some(k) => k,
                None => unreached(),
            };
            let c2 = match find_char_idx(&chars, sp.end) {
                Some(k) => k,
                None => unreached(),
            };
            proof {
                lemma_char_idx_some(s, 0, sp.start as int);
                lemma_char_idx_some(s, 0, sp.end as int);
                if c1 > c2 {
                    lemma_byte_offset_bounds(s, c2 as int, c1 as int);
                }
            }
            let mut out = String::new();
            let mut k = c1;
            proof {
                assert(s.subrange(c1 as int, c1 as int) =~= Seq::<char>::empty());
            }
            loop
                invariant
                    s == chars@,
                    c1 <= k <= c2 <= s.len(),
                    out@ == s.subrange(c1 as int, k as int),
                ensures
                    out@ == s.subrange(c1 as int, c2 as int),
                decreases c2 - k,
            {
                if k == c2 {
                    break;
                }
                push_char(&mut out, chars[k]);
                k = k + 1;
                proof {
                    assert(s.subrange(c1 as int, k as int) =~= s.subrange(
                        c1 as int,
                        k - 1,
                    ).push(s[k - 1]));
                }
            }
            out
        },
    }
}

/// Unwraps an optional span. If the option was `None`, creates a span of the
/// last character of the input instead.
pub fn unwrap_span(input: &str, span: Option<Span>) -> (r: Span)
    requires
        span is None ==> input@.len() > 0,
    ensures
        r == unwrapped_span(input@, span),
{
    match span {
        Some(sp) => sp,
        None => {
            let ghost s = input@;
            let bytes = input.as_bytes();
            let n: usize = bytes.len();
            let chars = line_chars(input);
            let last = chars[chars.len() - 1];
            let w = utf8_len(last);
            proof {
                lemma_byte_offset_is_encoded_len(s, s.len() as int);
                assert(s.take(s.len() as int) =~= s);
                lemma_byte_offset_bounds(s, 0, s.len() - 1);
                assert(byte_len(s) == byte_offset(s, s.len() - 1) + char_len(s[s.len() - 1]));
            }
            Span { start: n - w, end: n }
        },
    }
}

/// Formats a parse error against the line it arose on: an explanation, the
/// echoed line, and a character-counted caret underline.
pub fn format_error(error: ParserError, input: &str) -> (r: String)
    requires
        error_wf(error, input@),
    ensures
        r@ == formatted_error(error, input@),
{
    let ghost s = input@;
    let span = match error {
        ParserError::UnrecognizedSpecial(sp) => sp,
        ParserError::ExpectedBinaryOp(sp) => sp,
        ParserError::ExpectedExprStart(sp) => sp,
        ParserError::UnclosedParenthesis(sp) => sp,
    };
    // The explanation line, naming the expected token set and the text found.
    let mut out = "error: ".to_owned();
    match error {
        ParserError::UnrecognizedSpecial(_) => out.append("expected `?quit`, found `"),
        ParserError::ExpectedBinaryOp(_) => out.append("expected one of `+`, `-`, `*`, `/`, found `"),
        ParserError::ExpectedExprStart(_) => out.append("expected one of `-`, `(`, or a number, found `"),
        ParserError::UnclosedParenthesis(_) => out.append("expected `)`, found `"),
    }
    let found = spanned_value(input, span);
    out.append(found.as_str());
    // The echoed source line.
    out.append("`\n      ");
    out.append(input);
    out.append("      ");
    // The underline, padded and sized by character count.
    let u = unwrap_span(input, span);
    let chars = line_chars(input);
    proof {
        if span is None {
            lemma_byte_offset_bounds(s, 0, s.len() - 1);
            assert(byte_offset(s, s.len() as int) == byte_offset(s, s.len() - 1) + char_len(
                s[s.len() - 1],
            ));
            lemma_char_idx_of_offset(s, s.len() - 1);
            lemma_char_idx_of_offset(s, s.len() as int);
        }
    }
    let c1 = match find_char_idx(&chars, u.start) {
        Some(k) => k,
        None => unreached(),
    };
    let c2 = match find_char_idx(&chars, u.end) {
        Some(k) => k,
        None => unreached(),
    };
    proof {
        lemma_char_idx_some(s, 0, u.start as int);
        lemma_char_idx_some(s, 0, u.end as int);
        if c1 > c2 {
            lemma_byte_offset_bounds(s, c2 as int, c1 as int);
        }
    }
    let ghost base = out@;
    let mut k: usize = 0;
    proof {
        assert(base + repeat_char(' ', 0) =~= base);
    }
    loop
        invariant
            0 <= k <= c1,
            out@ == base + repeat_char(' ', k as int),
        ensures
            out@ == base + repeat_char(' ', c1 as int),
        decreases c1 - k,
    {
        if k == c1 {
            break;
        }
        push_char(&mut out, ' ');
        k = k + 1;
        proof {
            assert((base + repeat_char(' ', k - 1)).push(' ') =~= base + repeat_char(
                ' ',
                k as int,
            ));
        }
    }
    let ghost base2 = out@;
    let mut j: usize = 0;
    proof {
        assert(base2 + repeat_char('^', 0) =~= base2);
    }
    loop
        invariant
            0 <= j <= c2 - c1,
            c1 <= c2,
            out@ == base2 + repeat_char('^', j as int),
        ensures
            out@ == base2 + repeat_char('^', c2 - c1),
        decreases c2 - c1 - j,
    {
        if j == c2 - c1 {
            break;
        }
        push_char(&mut out, '^');
        j = j + 1;
        proof {
            assert((base2 + repeat_char('^', j - 1)).push('^') =~= base2 + repeat_char(
                '^',
                j as int,
            ));
        }
    }
    proof {
        assert(out@ =~= formatted_error(error, s));
    }
    out
}


/// Every token's span sits on character boundaries of the text it was read
/// from.
proof fn lemma_tokens_spans_wf(s: Seq<char>, i: int)
    requires
        0 <= i <= s.len(),
        byte_len(s) <= usize::MAX,
    ensures
        forall|k: int|
            0 <= k < tokens_from(s, i).len() ==> span_wf(s, (#[trigger] tokens_from(s, i)[k]).span),
    decreases s.len() - i,
{
    if 0 <= i && i < s.len() {
        lemma_token_end_at(s, i);
        let e = token_end_at(s, i);
        let t = token_at(s, i);
        lemma_byte_offset_bounds(s, 0, i);
        lemma_byte_offset_bounds(s, i, e);
        lemma_byte_offset_bounds(s, e, s.len() as int);
        lemma_char_idx_of_offset(s, i);
        lemma_char_idx_of_offset(s, e);
        assert(t.span.start as int == byte_offset(s, i));
        assert(t.span.end as int == byte_offset(s, e));
        assert(span_wf(s, t.span));
        lemma_tokens_spans_wf(s, e);
        assert forall|k: int| 0 <= k < tokens_from(s, i).len() implies span_wf(
            s,
            (#[trigger] tokens_from(s, i)[k]).span,
        ) by {
            if k == 0 {
                assert(tokens_from(s, i)[0] == t);
            } else {
                assert(tokens_from(s, i)[k] == tokens_from(s, e)[k - 1]);
            }
        }
    }
}

/// The formatter accepts every error the parser can produce: an error only
/// arises on a non-empty line, and any span it carries lies on character
/// boundaries of that line.
pub proof fn lemma_parse_error_wf(s: Seq<char>)
    requires
        byte_len(s) <= usize::MAX,
    ensures
        match parse_line(s) {
            Err(e) => s.len() > 0 && error_wf(e, s),
            Ok(_) => true,
        },
{
    lemma_parse_error_spans(s);
    match parse_line(s) {
        Err(e) => match error_span_of(e) {
            Some(sp) => {
                let toks = lexed(s);
                let k = choose|k: int| 0 <= k < toks.len() && sp == (#[trigger] toks[k]).span;
                let t = toks[k];
                assert(toks.contains(t));
                tokens_from(s, 0).lemma_filter_contains_rev(nonws(), t);
                let all = tokens_from(s, 0);
                let j = choose|j: int| 0 <= j < all.len() && all[j] == t;
                lemma_tokens_spans_wf(s, 0);
                assert(span_wf(s, all[j].span));
            },
            None => {},
        },
        Ok(_) => {},
    }
}

} // verus!
