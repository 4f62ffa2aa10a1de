//! The library's stated properties, proved once and for all: the tokenizer
//! is total and accounts for every character it consumes, rendering is a
//! pure function of the document, integer text round-trips exactly, and
//! parsing the canonical rendering of a suitable document rebuilds it.

use vstd::prelude::*;
use crate::lexer::{
    TokenKind, TokM, ScanOut, spec_scan, spec_trim, spec_match_len, spec_str_end,
    spec_digits_end, spec_token_at, is_ws_char, is_digit_char, kw_null, kw_true, kw_false,
    lemma_trim_bounds, lemma_scan_bounds,
};
use crate::numbers::{
    spec_dec_val, spec_int_lexeme, spec_int_val, spec_udec, spec_int_str, spec_digit_char,
    all_digits,
};
use crate::parser::{JsonVal, ParseErrV, In, spec_eat, spec_unescape};
use crate::render::{spec_render, spec_render_items, spec_render_entry, spec_render_entries};

verus! {

broadcast use {vstd::std_specs::vec::group_vec_axioms, vstd::seq::axiom_seq_index_decreases};

// ---------------------------------------------------------------------------
// Tokenizer totality and accounting
// ---------------------------------------------------------------------------

/// The whole token stream from position `p`: scanning is repeated until the
/// `Eof` token, which every finite input reaches.
pub open spec fn spec_tokens_from(s: Seq<char>, p: int) -> Seq<TokM>
    decreases s.len() - p
        when 0 <= p <= s.len()
{
    let sc = spec_scan(s, p);
    proof {
        lemma_scan_bounds(s, p);
    }
    if sc.kind == TokenKind::Eof {
        seq![spec_token_at(s, sc)]
    } else {
        seq![spec_token_at(s, sc)] + spec_tokens_from(s, sc.end)
    }
}

/// Tokenizer totality: the token stream of any finite input is finite and
/// ends with exactly one `Eof` token; no earlier token is `Eof`.
pub proof fn lemma_tokens_total(s: Seq<char>, p: int)
    requires
        0 <= p <= s.len(),
    ensures
        spec_tokens_from(s, p).len() >= 1,
        spec_tokens_from(s, p).last().kind == TokenKind::Eof,
        forall|i: int| 0 <= i < spec_tokens_from(s, p).len() - 1 ==> spec_tokens_from(s, p)[i].kind
            != TokenKind::Eof,
    decreases s.len() - p,
{
    lemma_scan_bounds(s, p);
    let sc = spec_scan(s, p);
    if sc.kind != TokenKind::Eof {
        lemma_tokens_total(s, sc.end);
        let toks = spec_tokens_from(s, p);
        let rest = spec_tokens_from(s, sc.end);
        assert(toks.last() == rest.last());
        assert forall|i: int| 0 <= i < toks.len() - 1 implies toks[i].kind != TokenKind::Eof by {
            if i > 0 {
                assert(toks[i] == rest[i - 1]);
            }
        }
    }
}

/// Tokenizer accounting: each scan step skips only whitespace before the
/// lexeme, and the token's text is exactly the characters of its span.
pub proof fn lemma_scan_accounts(s: Seq<char>, p: int)
    requires
        0 <= p <= s.len(),
    ensures
        ({
            let sc = spec_scan(s, p);
            &&& p <= sc.start <= sc.end <= s.len()
            &&& forall|i: int| p <= i < sc.start ==> is_ws_char(#[trigger] s[i])
            &&& spec_token_at(s, sc).text == s.subrange(sc.start, sc.end)
        }),
{
    lemma_trim_bounds(s, p);
    lemma_scan_bounds(s, p);
}

/// The characters a token stream consumes, in order: for each step the
/// skipped whitespace followed by the token's text, up to and including the
/// final `Eof` token.
#[verifier::opaque]
pub open spec fn spec_stream_text(s: Seq<char>, p: int) -> Seq<char>
    decreases s.len() - p
        when 0 <= p <= s.len()
{
    let sc = spec_scan(s, p);
    proof {
        lemma_scan_bounds(s, p);
    }
    if sc.kind == TokenKind::Eof {
        s.subrange(p, sc.start)
    } else {
        s.subrange(p, sc.start) + s.subrange(sc.start, sc.end) + spec_stream_text(s, sc.end)
    }
}

/// Tokenizer accounting, composed: the whitespace gaps and lexeme texts of
/// the whole token stream tile the input exactly, so every character of the
/// input is accounted for by the stream.
pub proof fn lemma_stream_accounts(s: Seq<char>, p: int)
    requires
        0 <= p <= s.len(),
    ensures
        spec_stream_text(s, p) == s.skip(p),
    decreases s.len() - p,
{
    reveal_with_fuel(spec_stream_text, 1);
    lemma_scan_bounds(s, p);
    lemma_trim_bounds(s, p);
    let sc = spec_scan(s, p);
    if sc.kind == TokenKind::Eof {
        assert(sc.start == s.len());
        assert(s.subrange(p, sc.start) =~= s.skip(p));
    } else {
        lemma_stream_accounts(s, sc.end);
        assert((s.subrange(p, sc.start) + s.subrange(sc.start, sc.end) + s.skip(sc.end)) =~= s.skip(
            p,
        ));
    }
}

// ---------------------------------------------------------------------------
// Rendering is a function of the document
// ---------------------------------------------------------------------------

/// Rendering the same document twice yields identical text: the canonical
/// text is a pure function of the document value.
pub proof fn lemma_render_deterministic(v: JsonVal, s1: Seq<char>, s2: Seq<char>)
    requires
        s1 == spec_render(v),
        s2 == spec_render(v),
    ensures
        s1 == s2,
{
}

// ---------------------------------------------------------------------------
// Numeric round trip
// ---------------------------------------------------------------------------

/// The decimal text of a nonnegative integer is all digits, is nonempty, and
/// denotes that integer back again.
pub proof fn lemma_udec_val(n: int)
    requires
        n >= 0,
    ensures
        spec_udec(n).len() >= 1,
        all_digits(spec_udec(n)),
        spec_dec_val(spec_udec(n)) == n,
    decreases n,
{
    if n <= 9 {
        assert(spec_digit_char(n) as u32 == 48 + n);
        assert(spec_udec(n) =~= seq![spec_digit_char(n)]);
        assert(is_digit_char(spec_digit_char(n)));
        assert(spec_udec(n).drop_last() =~= Seq::<char>::empty());
        assert(spec_dec_val(spec_udec(n)) == spec_dec_val(Seq::<char>::empty()) * 10 + (
        spec_digit_char(n) as u32 - 48));
    } else {
        vstd::arithmetic::div_mod::lemma_fundamental_div_mod(n, 10);
        lemma_udec_val(n / 10);
        let a = spec_udec(n / 10);
        let t = spec_udec(n);
        assert(t == a + seq![spec_digit_char(n % 10)]);
        assert(t.drop_last() =~= a);
        assert(t.last() == spec_digit_char(n % 10));
        assert(is_digit_char(spec_digit_char(n % 10)));
        assert forall|i: int| 0 <= i < t.len() implies is_digit_char(#[trigger] t[i]) by {
            if i < a.len() {
                assert(t[i] == a[i]);
            }
        }
        assert(spec_digit_char(n % 10) as u32 == 48 + n % 10);
        assert(spec_dec_val(t) == spec_dec_val(a) * 10 + (spec_digit_char(n % 10) as u32 - 48));
    }
}

/// Integer round trip: the decimal text of any signed value is an integer
/// lexeme denoting exactly that value.
pub proof fn lemma_int_str_val(i: int)
    ensures
        spec_int_lexeme(spec_int_str(i)),
        spec_int_val(spec_int_str(i)) == i,
        spec_int_str(i).len() >= 1,
{
    if i < 0 {
        lemma_udec_val(-i);
        let t = spec_int_str(i);
        assert(t[0] == '-');
        assert(t.skip(1) =~= spec_udec(-i));
        assert(spec_udec(-i).len() >= 1);
        assert(!is_digit_char('-'));
    } else {
        lemma_udec_val(i);
        let t = spec_int_str(i);
        assert(t == spec_udec(i));
        assert(is_digit_char(t[0]));
        assert(t[0] != '-');
    }
}

// ---------------------------------------------------------------------------
// Shape facts about rendered text and the scanner
// ---------------------------------------------------------------------------

/// Escape resolution leaves text without backslashes unchanged.
pub proof fn lemma_unescape_clean(s: Seq<char>)
    requires
        forall|i: int| 0 <= i < s.len() ==> #[trigger] s[i] != '\\',
    ensures
        spec_unescape(s) == s,
    decreases s.len(),
{
    if s.len() > 0 {
        let rest = s.skip(1);
        assert forall|i: int| 0 <= i < rest.len() implies #[trigger] rest[i] != '\\' by {
            assert(rest[i] == s[i + 1]);
        }
        lemma_unescape_clean(rest);
        assert(spec_unescape(s) =~= s);
    }
}

/// The scanner, at a position holding a structural character, yields that
/// character's token.
pub proof fn lemma_scan_single(s: Seq<char>, p: int)
    requires
        0 <= p < s.len(),
        s[p] == '{' || s[p] == '}' || s[p] == '[' || s[p] == ']' || s[p] == ',' || s[p] == ':',
    ensures
        spec_scan(s, p).start == p,
        spec_scan(s, p).end == p + 1,
        s[p] == '{' ==> spec_scan(s, p).kind == TokenKind::OpenCurly,
        s[p] == '}' ==> spec_scan(s, p).kind == TokenKind::CloseCurly,
        s[p] == '[' ==> spec_scan(s, p).kind == TokenKind::OpenBracket,
        s[p] == ']' ==> spec_scan(s, p).kind == TokenKind::CloseBracket,
        s[p] == ',' ==> spec_scan(s, p).kind == TokenKind::Comma,
        s[p] == ':' ==> spec_scan(s, p).kind == TokenKind::Colon,
{
    assert(!is_ws_char(s[p]));
    assert(spec_trim(s, p) == p);
}

/// A full keyword at `p` scans to its keyword token, whatever follows it.
pub proof fn lemma_match_full(s: Seq<char>, p: int, kw: Seq<char>)
    requires
        0 <= p,
        p + kw.len() <= s.len(),
        forall|i: int| 0 <= i < kw.len() ==> s[p + i] == #[trigger] kw[i],
    ensures
        spec_match_len(s, p, kw) == kw.len(),
    decreases kw.len(),
{
    if kw.len() > 0 {
        assert(s[p + 0] == kw[0]);
        let kw2 = kw.drop_first();
        assert forall|i: int| 0 <= i < kw2.len() implies s[(p + 1) + i] == #[trigger] kw2[i] by {
            assert(kw2[i] == kw[i + 1]);
            assert(s[p + (i + 1)] == kw[i + 1]);
        }
        lemma_match_full(s, p + 1, kw2);
    }
}

pub proof fn lemma_scan_null(s: Seq<char>, p: int)
    requires
        0 <= p,
        p + 4 <= s.len(),
        s.subrange(p, p + 4) == kw_null(),
    ensures
        spec_scan(s, p) == (ScanOut { kind: TokenKind::Null, start: p, end: p + 4 }),
{
    assert forall|i: int| 0 <= i < 4 implies s[p + i] == #[trigger] kw_null()[i] by {
        assert(s.subrange(p, p + 4)[i] == s[p + i]);
    }
    assert(s[p] == 'n');
    assert(!is_ws_char('n'));
    assert(spec_trim(s, p) == p);
    lemma_match_full(s, p, kw_null());
}

pub proof fn lemma_scan_true(s: Seq<char>, p: int)
    requires
        0 <= p,
        p + 4 <= s.len(),
        s.subrange(p, p + 4) == kw_true(),
    ensures
        spec_scan(s, p) == (ScanOut { kind: TokenKind::True, start: p, end: p + 4 }),
{
    assert forall|i: int| 0 <= i < 4 implies s[p + i] == #[trigger] kw_true()[i] by {
        assert(s.subrange(p, p + 4)[i] == s[p + i]);
    }
    assert(s[p] == 't');
    assert(!is_ws_char('t'));
    assert(spec_trim(s, p) == p);
    lemma_match_full(s, p, kw_true());
}

pub proof fn lemma_scan_false(s: Seq<char>, p: int)
    requires
        0 <= p,
        p + 5 <= s.len(),
        s.subrange(p, p + 5) == kw_false(),
    ensures
        spec_scan(s, p) == (ScanOut { kind: TokenKind::False, start: p, end: p + 5 }),
{
    assert forall|i: int| 0 <= i < 5 implies s[p + i] == #[trigger] kw_false()[i] by {
        assert(s.subrange(p, p + 5)[i] == s[p + i]);
    }
    assert(s[p] == 'f');
    assert(!is_ws_char('f'));
    assert(spec_trim(s, p) == p);
    lemma_match_full(s, p, kw_false());
}

/// A quote-delimited body free of quotes and backslashes closes exactly at
/// the next quote.
pub proof fn lemma_str_end_clean(s: Seq<char>, i: int, e: int)
    requires
        0 <= i <= e < s.len(),
        s[e] == '"',
        forall|j: int| i <= j < e ==> #[trigger] s[j] != '"' && s[j] != '\\',
    ensures
        spec_str_end(s, i, false) == Some(e + 1),
    decreases e - i,
{
    if i < e {
        lemma_str_end_clean(s, i + 1, e);
    }
}

/// A quoted clean string at `p` scans to a string token spanning both quotes.
pub proof fn lemma_scan_string(s: Seq<char>, p: int, e: int)
    requires
        0 <= p < e < s.len(),
        s[p] == '"',
        s[e] == '"',
        forall|j: int| p < j < e ==> #[trigger] s[j] != '"' && s[j] != '\\',
    ensures
        spec_scan(s, p) == (ScanOut { kind: TokenKind::Str, start: p, end: e + 1 }),
{
    assert(!is_ws_char('"'));
    assert(spec_trim(s, p) == p);
    lemma_str_end_clean(s, p + 1, e);
}

/// Digits fill `[i, e)` and `e` holds no digit: the digit run ends at `e`.
pub proof fn lemma_digits_end_exact(s: Seq<char>, i: int, e: int)
    requires
        0 <= i <= e <= s.len(),
        forall|j: int| i <= j < e ==> is_digit_char(#[trigger] s[j]),
        e == s.len() || !is_digit_char(s[e]),
    ensures
        spec_digits_end(s, i) == e,
    decreases e - i,
{
    if i < e {
        lemma_digits_end_exact(s, i + 1, e);
    }
}


/// An integer lexeme at `p`, not extendable by what follows, scans to one
/// integer token.
pub proof fn lemma_scan_integer(s: Seq<char>, p: int, e: int)
    requires
        0 <= p < e <= s.len(),
        spec_int_lexeme(s.subrange(p, e)),
        e == s.len() || (!is_digit_char(s[e]) && s[e] != '.'),
    ensures
        spec_scan(s, p) == (ScanOut { kind: TokenKind::Integer, start: p, end: e }),
{
    let t = s.subrange(p, e);
    assert(t[0] == s[p]);
    if t[0] == '-' {
        assert(!is_ws_char('-'));
        assert(spec_trim(s, p) == p);
        let d = t.skip(1);
        assert(d[0] == t[1]);
        assert(is_digit_char(s[p + 1]));
        assert forall|j: int| p + 1 <= j < e implies is_digit_char(#[trigger] s[j]) by {
            assert(d[j - p - 1] == t[j - p]);
            assert(t[j - p] == s[j]);
        }
        lemma_digits_end_exact(s, p + 1, e);
        assert(!is_digit_char('-'));
        assert(s[p] == '-');
    } else {
        assert(is_digit_char(s[p]));
        assert(!is_ws_char(s[p]));
        assert(s[p] != '"' && s[p] != '{' && s[p] != '[' && s[p] != '}' && s[p] != ']' && s[p]
            != ',' && s[p] != ':' && s[p] != 'n' && s[p] != 't' && s[p] != 'f');
        assert(spec_trim(s, p) == p);
        assert forall|j: int| p <= j < e implies is_digit_char(#[trigger] s[j]) by {
            assert(t[j - p] == s[j]);
        }
        lemma_digits_end_exact(s, p, e);
        assert(s[p] != '-');
    }
}

/// Exactly one dot, digits on both sides, an optional leading minus.
pub open spec fn is_float_split(t: Seq<char>, k: int) -> bool {
    let q = if t.len() > 0 && t[0] == '-' {
        1int
    } else {
        0int
    };
    &&& q < k < t.len() - 1
    &&& t[k] == '.'
    &&& forall|i: int| q <= i < k ==> is_digit_char(#[trigger] t[i])
    &&& forall|i: int| k < i < t.len() ==> is_digit_char(#[trigger] t[i])
}

/// A floating-point lexeme as the tokenizer produces it.
pub open spec fn is_float_lexeme(t: Seq<char>) -> bool {
    exists|k: int| #[trigger] is_float_split(t, k)
}

/// A float lexeme at `p`, not extendable by what follows, scans to one float
/// token.
pub proof fn lemma_scan_float(s: Seq<char>, p: int, e: int)
    requires
        0 <= p < e <= s.len(),
        is_float_lexeme(s.subrange(p, e)),
        e == s.len() || (!is_digit_char(s[e]) && s[e] != '.'),
    ensures
        spec_scan(s, p) == (ScanOut { kind: TokenKind::Float, start: p, end: e }),
{
    let t = s.subrange(p, e);
    let k = choose|k: int| is_float_split(t, k);
    assert(is_float_split(t, k));
    assert(t[0] == s[p]);
    assert(t[k] == s[p + k]);
    let q0: int = if t[0] == '-' {
        1int
    } else {
        0int
    };
    assert(is_digit_char(t[q0]));
    assert(t[q0] == s[p + q0]);
    assert forall|j: int| p + q0 <= j < p + k implies is_digit_char(#[trigger] s[j]) by {
        assert(t[j - p] == s[j]);
    }
    assert(s[p + k] == '.');
    assert(!is_digit_char('.'));
    lemma_digits_end_exact(s, p + q0, p + k);
    assert(is_digit_char(t[k + 1]));
    assert(t[k + 1] == s[p + k + 1]);
    assert forall|j: int| p + k + 1 <= j < e implies is_digit_char(#[trigger] s[j]) by {
        assert(t[j - p] == s[j]);
    }
    lemma_digits_end_exact(s, p + k + 2, e);
    if t[0] == '-' {
        assert(!is_ws_char('-'));
        assert(spec_trim(s, p) == p);
        assert(is_digit_char(s[p + 1]));
        lemma_digits_end_exact(s, p + 1, p + k);
    } else {
        assert(is_digit_char(s[p]));
        assert(!is_ws_char(s[p]));
        assert(s[p] != '"' && s[p] != '{' && s[p] != '[' && s[p] != '}' && s[p] != ']' && s[p]
            != ',' && s[p] != ':' && s[p] != 'n' && s[p] != 't' && s[p] != 'f' && s[p] != '-');
        assert(spec_trim(s, p) == p);
        lemma_digits_end_exact(s, p, p + k);
    }
}

// ---------------------------------------------------------------------------
// Round trip: parsing the rendering rebuilds the document
// ---------------------------------------------------------------------------

/// Text that renders and re-lexes unchanged inside quotes: no quote and no
/// backslash (rendering does not re-escape).
pub open spec fn clean_text(s: Seq<char>) -> bool {
    forall|i: int| 0 <= i < s.len() ==> #[trigger] s[i] != '"' && s[i] != '\\'
}

/// The documents whose canonical rendering parses back to an equal document:
/// no end-of-input marker inside the tree, integers within the signed 64-bit
/// range, float lexemes well formed, strings and keys free of quotes and
/// backslashes, and object keys pairwise distinct.
pub open spec fn renderable(v: JsonVal) -> bool
    decreases v,
{
    match v {
        JsonVal::Eof => false,
        JsonVal::Null => true,
        JsonVal::Bool(_) => true,
        JsonVal::Integer(i) => i64::MIN <= i <= i64::MAX,
        JsonVal::Float(t) => is_float_lexeme(t),
        JsonVal::Str(s) => clean_text(s),
        JsonVal::Array(items) => forall|i: int|
            0 <= i < items.len() ==> renderable(#[trigger] items[i]),
        JsonVal::Object(entries) => {
            &&& forall|i: int| 0 <= i < entries.len() ==> clean_text(
                (#[trigger] entries[i]).0,
            ) && renderable(entries[i].1)
            &&& forall|i: int, j: int| 0 <= i < j < entries.len() ==> (#[trigger] entries[i]).0
                != (#[trigger] entries[j]).0
        },
    }
}

/// A renderable document's text is nonempty and starts with a non-blank
/// character.
pub proof fn lemma_render_shape(v: JsonVal)
    requires
        renderable(v),
    ensures
        spec_render(v).len() >= 1,
        !is_ws_char(spec_render(v)[0]),
{
    match v {
        JsonVal::Eof => {
        },
        JsonVal::Null => {
            assert(spec_render(v)[0] == 'n');
        },
        JsonVal::Bool(b) => {
            if b {
                assert(spec_render(v)[0] == 't');
            } else {
                assert(spec_render(v)[0] == 'f');
            }
        },
        JsonVal::Integer(i) => {
            lemma_int_str_val(i);
            let t = spec_int_str(i);
            if i < 0 {
                assert(t[0] == '-');
            } else {
                lemma_udec_val(i);
                assert(is_digit_char(t[0]));
            }
        },
        JsonVal::Float(t) => {
            let k = choose|k: int| is_float_split(t, k);
            assert(is_float_split(t, k));
            if t[0] == '-' {
                assert(!is_ws_char('-'));
            } else {
                assert(is_digit_char(t[0]));
            }
        },
        JsonVal::Str(s) => {
            assert(spec_render(v)[0] == '"');
        },
        JsonVal::Array(items) => {
            assert(spec_render(v)[0] == '[');
        },
        JsonVal::Object(entries) => {
            assert(spec_render(v)[0] == '{');
        },
    }
}

/// The character after a token whose kind may legally follow a value is the
/// end of input, a blank, or one of the three separators, so it can never
/// extend a preceding lexeme.
pub proof fn lemma_follower_char(s: Seq<char>, e: int, ctx: In)
    requires
        0 <= e <= s.len(),
        crate::parser::spec_follow_ok(spec_scan(s, e).kind, ctx),
    ensures
        e == s.len() || is_ws_char(s[e]) || s[e] == ',' || s[e] == ']' || s[e] == '}',
{
    if e < s.len() && !is_ws_char(s[e]) {
        assert(spec_trim(s, e) == e);
        let c = s[e];
        let k = spec_scan(s, e).kind;
        if c != ',' && c != ']' && c != '}' {
            assert(k != TokenKind::Comma && k != TokenKind::CloseBracket && k
                != TokenKind::CloseCurly && k != TokenKind::Eof);
        }
    }
}

/// Parsing starts at the rendered value's first token, never at a separator
/// or the end of input.
pub open spec fn starts_value(kind: TokenKind) -> bool {
    &&& kind != TokenKind::CloseBracket
    &&& kind != TokenKind::CloseCurly
    &&& kind != TokenKind::Comma
    &&& kind != TokenKind::Colon
    &&& kind != TokenKind::Invalid
    &&& kind != TokenKind::Eof
}

/// Round trip, one value in context: where the input holds the rendering of
/// a renderable value (after optional whitespace) and the token after it is
/// legal for the context, the parser returns exactly that value and stops
/// exactly after its text.
#[verifier::rlimit(100)]
pub proof fn lemma_eat_renders(s: Seq<char>, p: int, ctx: In, v: JsonVal)
    requires
        renderable(v),
        0 <= p <= s.len(),
        spec_trim(s, p) + spec_render(v).len() <= s.len(),
        s.subrange(spec_trim(s, p), spec_trim(s, p) + spec_render(v).len()) == spec_render(v),
        crate::parser::spec_follow_ok(
            spec_scan(s, spec_trim(s, p) + spec_render(v).len()).kind,
            ctx,
        ),
    ensures
        spec_eat(s, p, false, ctx) == Ok::<(JsonVal, int, bool), ParseErrV>(
            (v, spec_trim(s, p) + spec_render(v).len(), false),
        ),
        starts_value(spec_scan(s, p).kind),
    decreases v,
{
    lemma_trim_bounds(s, p);
    let q = spec_trim(s, p);
    let r = spec_render(v);
    let e = q + r.len();
    lemma_render_shape(v);
    assert(r[0] == s[q]);
    assert(spec_trim(s, q) == q);
    lemma_follower_char(s, e, ctx);
    match v {
        JsonVal::Eof => {
        },
        JsonVal::Null => {
            assert(s.subrange(q, q + 4) =~= kw_null());
            lemma_scan_null(s, q);
            assert(spec_scan(s, p) == spec_scan(s, q));
        },
        JsonVal::Bool(b) => {
            if b {
                assert(s.subrange(q, q + 4) =~= kw_true());
                lemma_scan_true(s, q);
            } else {
                assert(s.subrange(q, q + 5) =~= kw_false());
                lemma_scan_false(s, q);
            }
        },
        JsonVal::Integer(i) => {
            lemma_int_str_val(i);
            assert(s.subrange(q, e) =~= spec_int_str(i));
            lemma_scan_integer(s, q, e);
            let sc = spec_scan(s, q);
            assert(spec_token_at(s, sc).text == s.subrange(q, e));
            assert(spec_int_val(spec_token_at(s, sc).text) == i);
        },
        JsonVal::Float(t) => {
            assert(s.subrange(q, e) =~= t);
            lemma_scan_float(s, q, e);
            let sc = spec_scan(s, q);
            assert(spec_token_at(s, sc).text == s.subrange(q, e));
        },
        JsonVal::Str(body) => {
            assert(s[q] == '"');
            assert(s[e - 1] == r[r.len() - 1 as int]);
            assert(r[r.len() - 1 as int] == '"');
            assert forall|j: int| q < j < e - 1 implies #[trigger] s[j] != '"' && s[j] != '\\' by {
                assert(s[j] == r[j - q]);
                assert(r[j - q] == body[j - q - 1]);
            }
            lemma_scan_string(s, q, e - 1);
            let sc = spec_scan(s, q);
            let text = spec_token_at(s, sc).text;
            assert(text == s.subrange(q, e));
            assert(text.subrange(1, text.len() - 1) =~= body);
            lemma_unescape_clean(body);
            assert(crate::parser::spec_unquote(text) == body);
        },
        JsonVal::Array(items) => {
            assert(s[q] == '[');
            lemma_scan_single(s, q);
            let sc = spec_scan(s, q);
            assert(sc.kind == TokenKind::OpenBracket && sc.end == q + 1);
            if items.len() == 0 {
                assert(r =~= seq!['[', ']']);
                assert(s[q + 1] == r[1]);
                assert(s[q + 1] == ']');
                lemma_scan_single(s, q + 1);
                assert(crate::parser::spec_arr_items(s, q + 1, false, Seq::empty())
                    == Ok::<(Seq<JsonVal>, int, bool), ParseErrV>((Seq::empty(), q + 2, false)));
                assert(Seq::<JsonVal>::empty() =~= items);
            } else {
                let ir = spec_render_items(items);
                assert(r == seq!['['] + ir + seq![']']);
                lemma_render_shape(items[0]);
                if items.len() == 1 {
                    assert(ir == spec_render(items[0]));
                } else {
                    assert(ir == spec_render(items[0]) + seq![',', ' '] + spec_render_items(
                        items.drop_first(),
                    ));
                }
                assert(ir[0] == spec_render(items[0])[0]);
                assert(s[q + 1] == r[1]);
                assert(r[1] == ir[0]);
                assert(!is_ws_char(s[q + 1]));
                assert(spec_trim(s, q + 1) == q + 1);
                assert(s.subrange(q + 1, q + 1 + ir.len()) =~= ir) by {
                    assert forall|j: int| 0 <= j < ir.len() implies s.subrange(
                        q + 1,
                        q + 1 + ir.len(),
                    )[j] == ir[j] by {
                        assert(s[q + 1 + j] == r[1 + j]);
                        assert(r[1 + j] == ir[j]);
                    }
                }
                assert(s[q + 1 + ir.len()] == r[r.len() - 1 as int]);
                assert(r[r.len() - 1 as int] == ']');
                lemma_arr_items_renders(s, q + 1, items, Seq::empty());
                assert(Seq::<JsonVal>::empty() + items =~= items);
            }
        },
        JsonVal::Object(entries) => {
            assert(s[q] == '{');
            lemma_scan_single(s, q);
            if entries.len() == 0 {
                assert(r =~= seq!['{', '}']);
                assert(s[q + 1] == r[1]);
                assert(s[q + 1] == '}');
                lemma_scan_single(s, q + 1);
                assert(crate::parser::spec_obj_items(
                    s,
                    q + 1,
                    false,
                    Seq::empty(),
                    true,
                    Seq::empty(),
                ) == Ok::<(Seq<(Seq<char>, JsonVal)>, int, bool), ParseErrV>(
                    (Seq::empty(), q + 2, false),
                ));
                assert(Seq::<(Seq<char>, JsonVal)>::empty() =~= entries);
            } else {
                let er = spec_render_entries(entries);
                assert(r == seq!['{', '\n'] + er + seq!['\n', '}']);
                assert(s[q + 1] == r[1]);
                assert(s[q + 1] == '\n');
                if entries.len() == 1 {
                    assert(er == spec_render_entry(entries[0]));
                } else {
                    assert(er == spec_render_entry(entries[0]) + seq![',', '\n']
                        + spec_render_entries(entries.drop_first()));
                }
                assert(spec_render_entry(entries[0])[0] == '"');
                assert(er[0] == '"');
                assert(s[q + 2] == r[2]);
                assert(r[2] == er[0]);
                assert(spec_trim(s, q + 1) == spec_trim(s, q + 2));
                assert(spec_trim(s, q + 2) == q + 2);
                assert(s.subrange(q + 2, q + 2 + er.len()) =~= er) by {
                    assert forall|j: int| 0 <= j < er.len() implies s.subrange(
                        q + 2,
                        q + 2 + er.len(),
                    )[j] == er[j] by {
                        assert(s[q + 2 + j] == r[2 + j]);
                        assert(r[2 + j] == er[j]);
                    }
                }
                assert(s[q + 2 + er.len()] == r[r.len() - 2 as int]);
                assert(r[r.len() - 2 as int] == '\n');
                assert(s[q + 2 + er.len() + 1] == r[r.len() - 1 as int]);
                assert(r[r.len() - 1 as int] == '}');
                lemma_obj_items_renders(s, q + 1, entries, Seq::empty(), Seq::empty());
                assert(Seq::<(Seq<char>, JsonVal)>::empty() + entries =~= entries);
            }
        },
    }
}

/// Round trip of the array loop: elements rendered with comma separators,
/// followed by the closing bracket, are parsed and appended in order.
#[verifier::rlimit(100)]
pub proof fn lemma_arr_items_renders(
    s: Seq<char>,
    p: int,
    items: Seq<JsonVal>,
    acc: Seq<JsonVal>,
)
    requires
        items.len() >= 1,
        forall|i: int| 0 <= i < items.len() ==> renderable(#[trigger] items[i]),
        0 <= p <= s.len(),
        spec_trim(s, p) + spec_render_items(items).len() < s.len(),
        s.subrange(
            spec_trim(s, p),
            spec_trim(s, p) + spec_render_items(items).len(),
        ) == spec_render_items(items),
        s[spec_trim(s, p) + spec_render_items(items).len()] == ']',
    ensures
        crate::parser::spec_arr_items(s, p, false, acc) == Ok::<
            (Seq<JsonVal>, int, bool),
            ParseErrV,
        >((acc + items, spec_trim(s, p) + spec_render_items(items).len() + 1, false)),
    decreases items,
{
    lemma_trim_bounds(s, p);
    let q = spec_trim(s, p);
    let ir = spec_render_items(items);
    let v0 = items[0];
    let r0 = spec_render(v0);
    lemma_render_shape(v0);
    assert(spec_trim(s, q) == q);
    assert forall|j: int| 0 <= j < ir.len() implies s[q + j] == #[trigger] ir[j] by {
        assert(s.subrange(q, q + ir.len())[j] == s[q + j]);
    }
    if items.len() == 1 {
        assert(ir == r0);
        assert(s.subrange(q, q + r0.len()) =~= r0);
        lemma_scan_single(s, q + r0.len());
        lemma_eat_renders(s, p, In::Array, v0);
        assert(spec_eat(s, p, false, In::Array) == Ok::<(JsonVal, int, bool), ParseErrV>(
            (v0, q + r0.len(), false),
        ));
        assert(crate::parser::spec_step(s, p, q + r0.len(), false) == (q + r0.len(), false));
        assert(crate::parser::spec_arr_items(s, q + r0.len(), false, acc.push(v0)) == Ok::<
            (Seq<JsonVal>, int, bool),
            ParseErrV,
        >((acc.push(v0), q + r0.len() + 1, false)));
        assert(acc.push(v0) =~= acc + items);
    } else {
        let rest = items.drop_first();
        let rr = spec_render_items(rest);
        assert(ir == r0 + seq![',', ' '] + rr);
        let c0 = q + r0.len();
        assert(s.subrange(q, q + r0.len()) =~= r0) by {
            assert forall|j: int| 0 <= j < r0.len() implies s.subrange(q, q + r0.len())[j]
                == r0[j] by {
                assert(s[q + j] == ir[j]);
                assert(ir[j] == r0[j]);
            }
        }
        assert(s[c0] == ir[r0.len() as int]);
        assert(s[c0] == ',');
        assert(s[c0 + 1] == ir[r0.len() + 1 as int]);
        assert(s[c0 + 1] == ' ');
        lemma_scan_single(s, c0);
        lemma_eat_renders(s, p, In::Array, v0);
        assert(spec_eat(s, p, false, In::Array) == Ok::<(JsonVal, int, bool), ParseErrV>(
            (v0, c0, false),
        ));
        assert(crate::parser::spec_step(s, p, c0, false) == (c0, false));
        // the loop sees the comma and skips it
        assert(rest[0] == items[1]);
        lemma_render_shape(rest[0]);
        if rest.len() == 1 {
            assert(rr == spec_render(rest[0]));
        } else {
            assert(rr == spec_render(rest[0]) + seq![',', ' '] + spec_render_items(
                rest.drop_first(),
            ));
        }
        assert(rr[0] == spec_render(rest[0])[0]);
        assert(s[c0 + 2] == ir[r0.len() + 2 as int]);
        assert(ir[r0.len() + 2 as int] == rr[0]);
        assert(!is_ws_char(s[c0 + 2]));
        assert(is_ws_char(' '));
        assert(spec_trim(s, c0 + 1) == spec_trim(s, c0 + 2));
        assert(spec_trim(s, c0 + 2) == c0 + 2);
        assert forall|i: int| 0 <= i < rest.len() implies renderable(#[trigger] rest[i]) by {
            assert(rest[i] == items[i + 1]);
        }
        assert(s.subrange(c0 + 2, c0 + 2 + rr.len()) =~= rr) by {
            assert forall|j: int| 0 <= j < rr.len() implies s.subrange(
                c0 + 2,
                c0 + 2 + rr.len(),
            )[j] == rr[j] by {
                assert(s[c0 + 2 + j] == ir[r0.len() + 2 + j]);
                assert(ir[r0.len() + 2 + j] == rr[j]);
            }
        }
        assert(s[c0 + 2 + rr.len()] == ']');
        lemma_arr_items_renders(s, c0 + 1, rest, acc.push(v0));
        assert(acc.push(v0) + rest =~= acc + items);
        assert(crate::parser::spec_arr_items(s, c0, false, acc.push(v0))
            == crate::parser::spec_arr_items(s, c0 + 1, false, acc.push(v0)));
    }
}

/// Round trip of one object entry: a quoted key, a colon, and a rendered
/// value, followed by a comma or the closing newline-brace, are parsed as
/// one insertion, which appends since the key is new.
#[verifier::rlimit(100)]
pub proof fn lemma_obj_entry_renders(
    s: Seq<char>,
    p: int,
    ent: (Seq<char>, JsonVal),
    acc: Seq<(Seq<char>, JsonVal)>,
    key0: Seq<char>,
)
    requires
        clean_text(ent.0),
        renderable(ent.1),
        forall|j: int| 0 <= j < acc.len() ==> (#[trigger] acc[j]).0 != ent.0,
        0 <= p <= s.len(),
        spec_trim(s, p) + spec_render_entry(ent).len() < s.len(),
        s.subrange(
            spec_trim(s, p),
            spec_trim(s, p) + spec_render_entry(ent).len(),
        ) == spec_render_entry(ent),
        s[spec_trim(s, p) + spec_render_entry(ent).len()] == ',' || (s[spec_trim(s, p)
            + spec_render_entry(ent).len()] == '\n' && spec_trim(s, p) + spec_render_entry(
            ent,
        ).len() + 1 < s.len() && s[spec_trim(s, p) + spec_render_entry(ent).len() + 1] == '}'),
    ensures
        crate::parser::spec_obj_items(s, p, false, acc, true, key0)
            == crate::parser::spec_obj_items(
            s,
            spec_trim(s, p) + spec_render_entry(ent).len(),
            false,
            acc.push(ent),
            false,
            ent.0,
        ),
    decreases ent,
{
    lemma_trim_bounds(s, p);
    let q = spec_trim(s, p);
    let k0 = ent.0;
    let v0 = ent.1;
    let e0 = spec_render_entry(ent);
    assert(e0 == seq!['"'] + k0 + seq!['"', ' ', ':', ' '] + spec_render(v0));
    assert forall|j: int| 0 <= j < e0.len() implies s[q + j] == #[trigger] e0[j] by {
        assert(s.subrange(q, q + e0.len())[j] == s[q + j]);
    }
    // the key token
    assert(s[q] == e0[0]);
    assert(s[q] == '"');
    assert(spec_trim(s, q) == q);
    let kend = q + k0.len() + 2;
    assert(s[kend - 1] == e0[k0.len() + 1 as int]);
    assert(s[kend - 1] == '"');
    assert forall|j: int| q < j < kend - 1 implies #[trigger] s[j] != '"' && s[j] != '\\' by {
        assert(s[j] == e0[j - q]);
        assert(e0[j - q] == k0[j - q - 1]);
        assert(clean_text(k0));
    }
    lemma_scan_string(s, q, kend - 1);
    let sck = spec_scan(s, q);
    let ktext = spec_token_at(s, sck).text;
    assert(ktext == s.subrange(q, kend));
    assert(ktext.subrange(1, ktext.len() - 1) =~= k0) by {
        assert forall|j: int| 0 <= j < k0.len() implies ktext.subrange(1, ktext.len() - 1)[j]
            == k0[j] by {
            assert(ktext[j + 1] == s[q + j + 1]);
            assert(s[q + j + 1] == e0[j + 1]);
        }
    }
    lemma_unescape_clean(k0);
    assert(crate::parser::spec_unquote(ktext) == k0);
    assert(spec_scan(s, p) == spec_scan(s, q));
    let a0 = crate::parser::spec_obj_items(s, p, false, acc, true, key0);
    assert(a0 == crate::parser::spec_obj_items(s, kend, false, acc, true, k0));
    // the colon
    assert(s[kend] == e0[k0.len() + 2 as int]);
    assert(s[kend] == ' ');
    assert(s[kend + 1] == e0[k0.len() + 3 as int]);
    assert(s[kend + 1] == ':');
    assert(is_ws_char(' ') && !is_ws_char(':'));
    assert(spec_trim(s, kend) == spec_trim(s, kend + 1));
    assert(spec_trim(s, kend + 1) == kend + 1);
    lemma_scan_single(s, kend + 1);
    assert(spec_scan(s, kend) == spec_scan(s, kend + 1));
    assert(a0 == crate::parser::spec_obj_items(s, kend + 2, false, acc, false, k0));
    // the value
    assert(s[kend + 2] == e0[k0.len() + 4 as int]);
    assert(s[kend + 2] == ' ');
    let vstart = kend + 3;
    let rv = spec_render(v0);
    lemma_render_shape(v0);
    assert forall|j: int| 0 <= j < rv.len() implies s[vstart + j] == #[trigger] rv[j] by {
        assert(s[vstart + j] == e0[k0.len() + 5 + j]);
        assert(e0[k0.len() + 5 + j] == rv[j]);
    }
    assert(s[vstart] == rv[0]);
    assert(!is_ws_char(s[vstart]));
    assert(spec_trim(s, kend + 2) == spec_trim(s, vstart));
    assert(spec_trim(s, vstart) == vstart);
    assert(s.subrange(vstart, vstart + rv.len()) =~= rv);
    let vend = vstart + rv.len();
    assert(vend == q + e0.len());
    // the token after the value is a comma or the closing brace
    if s[vend] == ',' {
        lemma_scan_single(s, vend);
    } else {
        assert(spec_trim(s, vend) == spec_trim(s, vend + 1));
        assert(spec_trim(s, vend + 1) == vend + 1);
        lemma_scan_single(s, vend + 1);
        assert(spec_scan(s, vend) == spec_scan(s, vend + 1));
    }
    lemma_eat_renders(s, kend + 2, In::Object, v0);
    assert(spec_eat(s, kend + 2, false, In::Object) == Ok::<(JsonVal, int, bool), ParseErrV>(
        (v0, vend, false),
    ));
    assert(crate::parser::spec_step(s, kend + 2, vend, false) == (vend, false));
    // the insert appends: the key is new in the accumulator
    crate::parser::lemma_obj_insert_absent(acc, k0, v0);
    assert((k0, v0) == ent);
    assert(crate::parser::spec_obj_insert(acc, k0, v0) == acc.push(ent));
    assert(!(spec_scan(s, kend + 2).kind == TokenKind::CloseCurly) && !(spec_scan(
        s,
        kend + 2,
    ).kind == TokenKind::Comma) && !(spec_scan(s, kend + 2).kind == TokenKind::Colon) && !(
    spec_scan(s, kend + 2).kind == TokenKind::Eof));
    assert(a0 == crate::parser::spec_obj_items(s, vend, false, acc.push(ent), false, k0));
}

/// Round trip of the object loop: each rendered entry is parsed and appended
/// in order, and the final newline and brace close the object.
#[verifier::rlimit(100)]
pub proof fn lemma_obj_items_renders(
    s: Seq<char>,
    p: int,
    entries: Seq<(Seq<char>, JsonVal)>,
    acc: Seq<(Seq<char>, JsonVal)>,
    key0: Seq<char>,
)
    requires
        entries.len() >= 1,
        forall|i: int| 0 <= i < entries.len() ==> clean_text((#[trigger] entries[i]).0)
            && renderable(entries[i].1),
        forall|i: int, j: int| 0 <= i < j < entries.len() ==> (#[trigger] entries[i]).0 != (
        #[trigger] entries[j]).0,
        forall|i: int, j: int| 0 <= i < entries.len() && 0 <= j < acc.len() ==> (
        #[trigger] entries[i]).0 != (#[trigger] acc[j]).0,
        0 <= p <= s.len(),
        spec_trim(s, p) + spec_render_entries(entries).len() + 1 < s.len(),
        s.subrange(
            spec_trim(s, p),
            spec_trim(s, p) + spec_render_entries(entries).len(),
        ) == spec_render_entries(entries),
        s[spec_trim(s, p) + spec_render_entries(entries).len()] == '\n',
        s[spec_trim(s, p) + spec_render_entries(entries).len() + 1] == '}',
    ensures
        crate::parser::spec_obj_items(s, p, false, acc, true, key0) == Ok::<
            (Seq<(Seq<char>, JsonVal)>, int, bool),
            ParseErrV,
        >((acc + entries, spec_trim(s, p) + spec_render_entries(entries).len() + 2, false)),
    decreases entries,
{
    lemma_trim_bounds(s, p);
    let q = spec_trim(s, p);
    let er = spec_render_entries(entries);
    let ent = entries[0];
    let e0 = spec_render_entry(ent);
    assert forall|j: int| 0 <= j < er.len() implies s[q + j] == #[trigger] er[j] by {
        assert(s.subrange(q, q + er.len())[j] == s[q + j]);
    }
    if entries.len() == 1 {
        assert(er == e0);
    } else {
        assert(er == e0 + seq![',', '\n'] + spec_render_entries(entries.drop_first()));
    }
    assert(s.subrange(q, q + e0.len()) =~= e0) by {
        assert forall|j: int| 0 <= j < e0.len() implies s.subrange(q, q + e0.len())[j]
            == e0[j] by {
            assert(s[q + j] == er[j]);
            assert(er[j] == e0[j]);
        }
    }
    let vend = q + e0.len();
    if entries.len() == 1 {
        assert(s[vend] == '\n');
        assert(s[vend + 1] == '}');
    } else {
        assert(s[vend] == er[e0.len() as int]);
        assert(s[vend] == ',');
    }
    lemma_obj_entry_renders(s, p, ent, acc, key0);
    let acc2 = acc.push(ent);
    let a1 = crate::parser::spec_obj_items(s, vend, false, acc2, false, ent.0);
    if entries.len() == 1 {
        assert(spec_trim(s, vend) == spec_trim(s, vend + 1));
        assert(spec_trim(s, vend + 1) == vend + 1);
        lemma_scan_single(s, vend + 1);
        assert(spec_scan(s, vend) == spec_scan(s, vend + 1));
        assert(a1 == Ok::<(Seq<(Seq<char>, JsonVal)>, int, bool), ParseErrV>(
            (acc2, vend + 2, false),
        ));
        assert(acc2 =~= acc + entries);
    } else {
        lemma_scan_single(s, vend);
        let rest = entries.drop_first();
        let rr = spec_render_entries(rest);
        assert(er == e0 + seq![',', '\n'] + rr);
        assert(s[vend + 1] == er[e0.len() + 1 as int]);
        assert(s[vend + 1] == '\n');
        assert(rest[0] == entries[1]);
        if rest.len() == 1 {
            assert(rr == spec_render_entry(rest[0]));
        } else {
            assert(rr == spec_render_entry(rest[0]) + seq![',', '\n'] + spec_render_entries(
                rest.drop_first(),
            ));
        }
        assert(spec_render_entry(rest[0])[0] == '"');
        assert(rr[0] == '"');
        assert(s[vend + 2] == er[e0.len() + 2 as int]);
        assert(er[e0.len() + 2 as int] == rr[0]);
        assert(spec_trim(s, vend + 1) == spec_trim(s, vend + 2));
        assert(spec_trim(s, vend + 2) == vend + 2);
        assert forall|i: int| 0 <= i < rest.len() implies clean_text((#[trigger] rest[i]).0)
            && renderable(rest[i].1) by {
            assert(rest[i] == entries[i + 1]);
        }
        assert forall|i: int, j: int| 0 <= i < j < rest.len() implies (#[trigger] rest[i]).0 != (
        #[trigger] rest[j]).0 by {
            assert(rest[i] == entries[i + 1]);
            assert(rest[j] == entries[j + 1]);
        }
        assert forall|i: int, j: int| 0 <= i < rest.len() && 0 <= j < acc2.len() implies (
        #[trigger] rest[i]).0 != (#[trigger] acc2[j]).0 by {
            assert(rest[i] == entries[i + 1]);
            if j < acc.len() {
                assert(acc2[j] == acc[j]);
            } else {
                assert(acc2[j] == entries[0]);
            }
        }
        assert(s.subrange(vend + 2, vend + 2 + rr.len()) =~= rr) by {
            assert forall|j: int| 0 <= j < rr.len() implies s.subrange(
                vend + 2,
                vend + 2 + rr.len(),
            )[j] == rr[j] by {
                assert(s[vend + 2 + j] == er[e0.len() + 2 + j]);
                assert(er[e0.len() + 2 + j] == rr[j]);
            }
        }
        assert(s[vend + 2 + rr.len()] == '\n');
        assert(s[vend + 2 + rr.len() + 1] == '}');
        lemma_obj_items_renders(s, vend + 1, rest, acc2, ent.0);
        assert(acc2 + rest =~= acc + entries);
        assert(a1 == crate::parser::spec_obj_items(s, vend + 1, false, acc2, true, ent.0));
    }
}

/// Round trip: parsing the canonical rendering of any renderable document
/// rebuilds a document equal to it (objects included, entry for entry, since
/// rendering and parsing both keep first-insertion order).
pub proof fn lemma_parse_render_round_trip(v: JsonVal)
    requires
        renderable(v),
    ensures
        crate::parser::spec_parse(spec_render(v)) == Ok::<JsonVal, ParseErrV>(v),
{
    let s = spec_render(v);
    lemma_render_shape(v);
    assert(spec_trim(s, 0) == 0);
    assert(s.subrange(0, s.len() as int) =~= s);
    assert(spec_trim(s, s.len() as int) == s.len());
    assert(spec_scan(s, s.len() as int).kind == TokenKind::Eof);
    lemma_eat_renders(s, 0, In::Nothing, v);
}

} // verus!
