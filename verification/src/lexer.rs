//! Tokenizer: turns a character sequence into a stream of lexical tokens.
//!
//! The stream is pull-based: each call of `next` yields one token, and after
//! the single `Eof` token the stream is exhausted and yields nothing more.
//! Locations are 1-based; a token's location is the row of its last character
//! and the column one past its last character on that row (an end-of-lexeme
//! convention, applied uniformly to every token kind).

use vstd::prelude::*;

verus! {

broadcast use {vstd::std_specs::vec::group_vec_axioms, vstd::seq::axiom_seq_index_decreases};

#[derive(Debug, PartialEq, Eq, Structural, Clone, Copy)]
pub enum TokenKind {
    OpenCurly,
    CloseCurly,
    OpenBracket,
    CloseBracket,
    Comma,
    Colon,
    Integer,
    Float,
    Str,
    Null,
    True,
    False,
    Eof,
    Invalid,
}

#[derive(Debug, PartialEq, Eq, Structural, Clone, Copy)]
pub struct Loc {
    pub col: usize,
    pub row: usize,
}

#[derive(Debug, PartialEq)]
pub struct Token {
    pub kind: TokenKind,
    pub text: String,
    pub loc: Loc,
}

/// Mathematical model of a token: its kind, its exact lexeme, and its
/// 1-based end-of-lexeme location.
pub struct TokM {
    pub kind: TokenKind,
    pub text: Seq<char>,
    pub row: int,
    pub col: int,
}

impl View for Token {
    type V = TokM;

    open spec fn view(&self) -> TokM {
        TokM {
            kind: self.kind,
            text: self.text@,
            row: self.loc.row as int,
            col: self.loc.col as int,
        }
    }
}

/// The span one scan step recognises: the token kind, the index of the first
/// lexeme character (after skipped whitespace), and the index one past the
/// last lexeme character.
pub struct ScanOut {
    pub kind: TokenKind,
    pub start: int,
    pub end: int,
}

pub open spec fn is_ws_char(c: char) -> bool {
    c == ' ' || c == '\t' || c == '\n' || c == '\r'
}

pub open spec fn is_digit_char(c: char) -> bool {
    48 <= (c as u32) && (c as u32) <= 57
}

pub open spec fn kw_null() -> Seq<char> {
    seq!['n', 'u', 'l', 'l']
}

pub open spec fn kw_true() -> Seq<char> {
    seq!['t', 'r', 'u', 'e']
}

pub open spec fn kw_false() -> Seq<char> {
    seq!['f', 'a', 'l', 's', 'e']
}

/// Index of the first non-whitespace character at or after `p`.
pub open spec fn spec_trim(s: Seq<char>, p: int) -> int
    decreases s.len() - p,
{
    if 0 <= p < s.len() && is_ws_char(s[p]) {
        spec_trim(s, p + 1)
    } else {
        p
    }
}

/// How many leading characters of `kw` appear verbatim at `p`.
pub open spec fn spec_match_len(s: Seq<char>, p: int, kw: Seq<char>) -> int
    decreases kw.len(),
{
    if kw.len() == 0 {
        0
    } else if 0 <= p < s.len() && s[p] == kw[0] {
        1 + spec_match_len(s, p + 1, kw.drop_first())
    } else {
        0
    }
}

/// Index one past the closing quote of a string literal whose body starts at
/// `i`, skipping two-character escape pairs; `None` when the input ends first.
pub open spec fn spec_str_end(s: Seq<char>, i: int, esc: bool) -> Option<int>
    decreases s.len() - i,
{
    if !(0 <= i < s.len()) {
        None
    } else if esc {
        spec_str_end(s, i + 1, false)
    } else if s[i] == '\\' {
        spec_str_end(s, i + 1, true)
    } else if s[i] == '"' {
        Some(i + 1)
    } else {
        spec_str_end(s, i + 1, false)
    }
}

/// Index of the first non-digit character at or after `i`.
pub open spec fn spec_digits_end(s: Seq<char>, i: int) -> int
    decreases s.len() - i,
{
    if 0 <= i < s.len() && is_digit_char(s[i]) {
        spec_digits_end(s, i + 1)
    } else {
        i
    }
}

pub open spec fn spec_single(kind: TokenKind, q: int) -> ScanOut {
    ScanOut { kind, start: q, end: q + 1 }
}

pub open spec fn spec_keyword_scan(s: Seq<char>, q: int, kw: Seq<char>, kind: TokenKind) -> ScanOut {
    let m = spec_match_len(s, q, kw);
    if m == kw.len() {
        ScanOut { kind, start: q, end: q + m }
    } else {
        ScanOut { kind: TokenKind::Invalid, start: q, end: q + m }
    }
}

pub open spec fn spec_string_scan(s: Seq<char>, q: int) -> ScanOut {
    match spec_str_end(s, q + 1, false) {
        Some(e) => ScanOut { kind: TokenKind::Str, start: q, end: e },
        None => ScanOut { kind: TokenKind::Invalid, start: q, end: s.len() as int },
    }
}

/// A number is an optional `-`, a digit run, and at most one `.` that must be
/// followed immediately by a digit; the dot selects `Float` over `Integer`.
pub open spec fn spec_number_scan(s: Seq<char>, q: int) -> ScanOut {
    if s[q] == '-' && !(q + 1 < s.len() && is_digit_char(s[q + 1])) {
        ScanOut { kind: TokenKind::Invalid, start: q, end: q + 1 }
    } else {
        let d0 = if s[q] == '-' { q + 1 } else { q };
        let e1 = spec_digits_end(s, d0);
        if e1 < s.len() && s[e1] == '.' {
            if e1 + 1 < s.len() && is_digit_char(s[e1 + 1]) {
                ScanOut { kind: TokenKind::Float, start: q, end: spec_digits_end(s, e1 + 2) }
            } else {
                ScanOut { kind: TokenKind::Invalid, start: q, end: e1 + 1 }
            }
        } else {
            ScanOut { kind: TokenKind::Integer, start: q, end: e1 }
        }
    }
}

/// One whole scan step from position `p`: skip whitespace, then recognise the
/// token that starts there.  At the end of input the token is `Eof`.
pub open spec fn spec_scan(s: Seq<char>, p: int) -> ScanOut {
    let q = spec_trim(s, p);
    if q >= s.len() {
        ScanOut { kind: TokenKind::Eof, start: q, end: q }
    } else {
        let c = s[q];
        if c == '{' {
            spec_single(TokenKind::OpenCurly, q)
        } else if c == '[' {
            spec_single(TokenKind::OpenBracket, q)
        } else if c == '}' {
            spec_single(TokenKind::CloseCurly, q)
        } else if c == ']' {
            spec_single(TokenKind::CloseBracket, q)
        } else if c == ',' {
            spec_single(TokenKind::Comma, q)
        } else if c == ':' {
            spec_single(TokenKind::Colon, q)
        } else if c == 'n' {
            spec_keyword_scan(s, q, kw_null(), TokenKind::Null)
        } else if c == 't' {
            spec_keyword_scan(s, q, kw_true(), TokenKind::True)
        } else if c == 'f' {
            spec_keyword_scan(s, q, kw_false(), TokenKind::False)
        } else if c == '"' {
            spec_string_scan(s, q)
        } else if is_digit_char(c) || c == '-' {
            spec_number_scan(s, q)
        } else {
            spec_single(TokenKind::Invalid, q)
        }
    }
}

/// Number of newline characters in `s`.
pub open spec fn spec_rows(s: Seq<char>) -> int
    decreases s.len(),
{
    if s.len() == 0 {
        0
    } else {
        spec_rows(s.drop_last()) + if s.last() == '\n' { 1int } else { 0int }
    }
}

/// Index just after the last newline of `s` (0 when `s` has none): the index
/// where the current line starts.
pub open spec fn spec_line_start(s: Seq<char>) -> int
    decreases s.len(),
{
    if s.len() == 0 {
        0
    } else if s.last() == '\n' {
        s.len() as int
    } else {
        spec_line_start(s.drop_last())
    }
}

pub open spec fn spec_row_at(s: Seq<char>, p: int) -> int {
    spec_rows(s.take(p)) + 1
}

pub open spec fn spec_col_at(s: Seq<char>, p: int) -> int {
    p - spec_line_start(s.take(p)) + 1
}

/// The token recognised by a scan step, as a value: its lexeme is exactly the
/// characters of its span and its location is taken at the span's end.
pub open spec fn spec_token_at(s: Seq<char>, sc: ScanOut) -> TokM {
    TokM {
        kind: sc.kind,
        text: s.subrange(sc.start, sc.end),
        row: spec_row_at(s, sc.end),
        col: spec_col_at(s, sc.end),
    }
}

pub proof fn lemma_trim_bounds(s: Seq<char>, p: int)
    requires
        0 <= p <= s.len(),
    ensures
        p <= spec_trim(s, p) <= s.len(),
        forall|i: int| p <= i < spec_trim(s, p) ==> is_ws_char(#[trigger] s[i]),
        spec_trim(s, p) < s.len() ==> !is_ws_char(s[spec_trim(s, p)]),
    decreases s.len() - p,
{
    if 0 <= p < s.len() && is_ws_char(s[p]) {
        lemma_trim_bounds(s, p + 1);
    }
}

pub proof fn lemma_match_len_bounds(s: Seq<char>, p: int, kw: Seq<char>)
    requires
        0 <= p <= s.len(),
    ensures
        0 <= spec_match_len(s, p, kw) <= kw.len(),
        p + spec_match_len(s, p, kw) <= s.len(),
        forall|i: int| 0 <= i < spec_match_len(s, p, kw) ==> #[trigger] s[p + i] == kw[i],
        spec_match_len(s, p, kw) < kw.len() ==> p + spec_match_len(s, p, kw) >= s.len()
            || s[p + spec_match_len(s, p, kw)] != kw[spec_match_len(s, p, kw)],
    decreases kw.len(),
{
    if kw.len() > 0 && 0 <= p < s.len() && s[p] == kw[0] {
        lemma_match_len_bounds(s, p + 1, kw.drop_first());
        let m = spec_match_len(s, p, kw);
        let m2 = spec_match_len(s, p + 1, kw.drop_first());
        assert forall|i: int| 0 <= i < m implies #[trigger] s[p + i] == kw[i] by {
            if i > 0 {
                assert(s[(p + 1) + (i - 1)] == kw.drop_first()[i - 1]);
            }
        }
        if m < kw.len() {
            assert(kw.drop_first()[m2] == kw[m]);
            assert((p + 1) + m2 == p + m);
        }
    }
}

pub proof fn lemma_str_end_bounds(s: Seq<char>, i: int, esc: bool)
    requires
        0 <= i <= s.len(),
    ensures
        spec_str_end(s, i, esc) matches Some(e) ==> i < e <= s.len(),
    decreases s.len() - i,
{
    if 0 <= i < s.len() {
        lemma_str_end_bounds(s, i + 1, false);
        lemma_str_end_bounds(s, i + 1, true);
    }
}

pub proof fn lemma_digits_end_bounds(s: Seq<char>, i: int)
    requires
        0 <= i <= s.len(),
    ensures
        i <= spec_digits_end(s, i) <= s.len(),
        forall|j: int| i <= j < spec_digits_end(s, i) ==> is_digit_char(#[trigger] s[j]),
        spec_digits_end(s, i) < s.len() ==> !is_digit_char(s[spec_digits_end(s, i)]),
    decreases s.len() - i,
{
    if 0 <= i < s.len() && is_digit_char(s[i]) {
        lemma_digits_end_bounds(s, i + 1);
    }
}

/// Every scan step stays inside the input, and every token other than `Eof`
/// consumes at least one character.
pub proof fn lemma_scan_bounds(s: Seq<char>, p: int)
    requires
        0 <= p <= s.len(),
    ensures
        p <= spec_scan(s, p).start,
        spec_scan(s, p).start <= spec_scan(s, p).end <= s.len(),
        spec_scan(s, p).kind == TokenKind::Eof ==> spec_scan(s, p).end == spec_scan(s, p).start
            && spec_scan(s, p).start == s.len(),
        spec_scan(s, p).kind != TokenKind::Eof ==> spec_scan(s, p).start < spec_scan(s, p).end,
{
    lemma_trim_bounds(s, p);
    let q = spec_trim(s, p);
    if q < s.len() {
        let c = s[q];
        if c == 'n' {
            lemma_match_len_bounds(s, q, kw_null());
            assert(kw_null()[0] == 'n');
            lemma_match_len_bounds(s, q + 1, kw_null().drop_first());
        } else if c == 't' {
            lemma_match_len_bounds(s, q, kw_true());
            assert(kw_true()[0] == 't');
            lemma_match_len_bounds(s, q + 1, kw_true().drop_first());
        } else if c == 'f' {
            lemma_match_len_bounds(s, q, kw_false());
            assert(kw_false()[0] == 'f');
            lemma_match_len_bounds(s, q + 1, kw_false().drop_first());
        } else if c == '"' {
            lemma_str_end_bounds(s, q + 1, false);
        } else if is_digit_char(c) || c == '-' {
            if !(c == '-' && !(q + 1 < s.len() && is_digit_char(s[q + 1]))) {
                let d0 = if c == '-' { q + 1 } else { q };
                lemma_digits_end_bounds(s, d0);
                assert(spec_digits_end(s, d0) == spec_digits_end(s, d0 + 1));
                lemma_digits_end_bounds(s, d0 + 1);
                let e1 = spec_digits_end(s, d0);
                if e1 < s.len() && s[e1] == '.' && e1 + 1 < s.len() && is_digit_char(s[e1 + 1]) {
                    lemma_digits_end_bounds(s, e1 + 2);
                }
            }
        }
    }
}

/// A string token always spans at least its two quotes.
pub proof fn lemma_scan_str_shape(s: Seq<char>, p: int)
    requires
        0 <= p <= s.len(),
        spec_scan(s, p).kind == TokenKind::Str,
    ensures
        spec_scan(s, p).end >= spec_scan(s, p).start + 2,
{
    lemma_trim_bounds(s, p);
    let q = spec_trim(s, p);
    if q < s.len() && s[q] == '"' {
        lemma_str_end_bounds(s, q + 1, false);
    }
}

pub proof fn lemma_rows_le(s: Seq<char>)
    ensures
        0 <= spec_rows(s) <= s.len(),
        0 <= spec_line_start(s) <= s.len(),
    decreases s.len(),
{
    if s.len() > 0 {
        lemma_rows_le(s.drop_last());
    }
}

/// Extending a prefix by one character advances the row and line-start
/// bookkeeping in the evident way.
pub proof fn lemma_loc_step(s: Seq<char>, p: int)
    requires
        0 <= p < s.len(),
    ensures
        spec_rows(s.take(p + 1)) == spec_rows(s.take(p)) + if s[p] == '\n' { 1int } else { 0int },
        spec_line_start(s.take(p + 1)) == if s[p] == '\n' { p + 1 } else { spec_line_start(s.take(p)) },
{
    assert(s.take(p + 1).drop_last() =~= s.take(p));
    assert(s.take(p + 1).last() == s[p]);
}

pub struct Lexer {
    pub input: Vec<char>,
    pub cursor: usize,
    pub exhausted: bool,
    pub row: usize,
    pub char_count: usize,
}

impl Lexer {
    /// The cursor is inside the input and the row / line-start counters agree
    /// with the characters consumed so far.
    pub open spec fn wf(&self) -> bool {
        &&& self.input@.len() < usize::MAX
        &&& self.cursor <= self.input@.len()
        &&& self.row == spec_rows(self.input@.take(self.cursor as int))
        &&& self.char_count == spec_line_start(self.input@.take(self.cursor as int))
    }

    pub fn new(json: &str) -> (r: Lexer)
        requires
            json@.len() < usize::MAX,
        ensures
            r.wf(),
            r.input@ == json@,
            r.cursor == 0,
            r.exhausted == false,
    {
        let n = json.unicode_len();
        let mut input: Vec<char> = Vec::new();
        let mut i: usize = 0;
        while i < n
            invariant
                i <= n,
                n == json@.len(),
                input@ == json@.subrange(0, i as int),
            decreases n - i,
        {
            let c = json.get_char(i);
            input.push(c);
            proof {
                assert(input@ =~= json@.subrange(0, i + 1 as int));
            }
            i = i + 1;
        }
        proof {
            assert(input@ =~= json@);
            assert(input@.take(0) =~= Seq::<char>::empty());
        }
        Lexer { input, cursor: 0, exhausted: false, row: 0, char_count: 0 }
    }

    pub fn get_loc(&self) -> (r: Loc)
        requires
            self.wf(),
        ensures
            r.row == spec_row_at(self.input@, self.cursor as int),
            r.col == spec_col_at(self.input@, self.cursor as int),
    {
        proof {
            lemma_rows_le(self.input@.take(self.cursor as int));
        }
        Loc { col: self.cursor - self.char_count + 1, row: self.row + 1 }
    }

    fn is_ws(c: char) -> (r: bool)
        ensures
            r == is_ws_char(c),
    {
        c == ' ' || c == '\t' || c == '\n' || c == '\r'
    }

    fn is_digit(c: char) -> (r: bool)
        ensures
            r == is_digit_char(c),
    {
        let u = c as u32;
        48 <= u && u <= 57
    }

    /// Index of the first non-whitespace character at or after `p`.
    fn trim(input: &Vec<char>, p: usize) -> (q: usize)
        requires
            p <= input@.len(),
        ensures
            q == spec_trim(input@, p as int),
            p <= q <= input@.len(),
    {
        let mut i: usize = p;
        while i < input.len() && Self::is_ws(input[i])
            invariant
                p <= i <= input@.len(),
                spec_trim(input@, p as int) == spec_trim(input@, i as int),
            decreases input@.len() - i,
        {
            i = i + 1;
        }
        proof {
            lemma_trim_bounds(input@, p as int);
        }
        i
    }

    /// How many leading characters of `kw` appear verbatim at `p`.
    fn match_keyword(input: &Vec<char>, p: usize, kw: &Vec<char>) -> (m: usize)
        requires
            p <= input@.len(),
            input@.len() <= usize::MAX,
        ensures
            m == spec_match_len(input@, p as int, kw@),
            p + m <= input@.len(),
            m <= kw@.len(),
    {
        let mut j: usize = 0;
        while j < kw.len() && p + j < input.len() && input[p + j] == kw[j]
            invariant
                j <= kw@.len(),
                p <= input@.len(),
                p + j <= input@.len(),
                input@.len() <= usize::MAX,
                forall|i: int| 0 <= i < j ==> p + i < input@.len()
                    && input@[p + i] == #[trigger] kw@[i],
            decreases kw@.len() - j,
        {
            j = j + 1;
        }
        proof {
            let s = input@;
            let kws = kw@;
            let m = spec_match_len(s, p as int, kws);
            lemma_match_len_bounds(s, p as int, kws);
            if j < m {
                assert(s[p + j] == kws[j as int]);
                assert(false);
            }
            if m < j {
                assert(input@[p + m] == kws[m]);
                assert(false);
            }
        }
        j
    }

    /// Scan the `null` keyword starting at `q` (where `input[q] == 'n'`).
    fn get_null_token(input: &Vec<char>, q: usize) -> (r: (TokenKind, usize))
        requires
            q < input@.len(),
            input@.len() <= usize::MAX,
        ensures
            r.0 == spec_keyword_scan(input@, q as int, kw_null(), TokenKind::Null).kind,
            r.1 == spec_keyword_scan(input@, q as int, kw_null(), TokenKind::Null).end,
            q <= r.1 <= input@.len(),
    {
        let kw: Vec<char> = vec!['n', 'u', 'l', 'l'];
        let m = Self::match_keyword(input, q, &kw);
        proof {
            assert(kw@ =~= kw_null());
        }
        if m == 4 {
            (TokenKind::Null, q + m)
        } else {
            (TokenKind::Invalid, q + m)
        }
    }

    /// Scan the `true` keyword starting at `q` (where `input[q] == 't'`).
    fn get_true_token(input: &Vec<char>, q: usize) -> (r: (TokenKind, usize))
        requires
            q < input@.len(),
            input@.len() <= usize::MAX,
        ensures
            r.0 == spec_keyword_scan(input@, q as int, kw_true(), TokenKind::True).kind,
            r.1 == spec_keyword_scan(input@, q as int, kw_true(), TokenKind::True).end,
            q <= r.1 <= input@.len(),
    {
        let kw: Vec<char> = vec!['t', 'r', 'u', 'e'];
        let m = Self::match_keyword(input, q, &kw);
        proof {
            assert(kw@ =~= kw_true());
        }
        if m == 4 {
            (TokenKind::True, q + m)
        } else {
            (TokenKind::Invalid, q + m)
        }
    }

    /// Scan the `false` keyword starting at `q` (where `input[q] == 'f'`).
    fn get_false_token(input: &Vec<char>, q: usize) -> (r: (TokenKind, usize))
        requires
            q < input@.len(),
            input@.len() <= usize::MAX,
        ensures
            r.0 == spec_keyword_scan(input@, q as int, kw_false(), TokenKind::False).kind,
            r.1 == spec_keyword_scan(input@, q as int, kw_false(), TokenKind::False).end,
            q <= r.1 <= input@.len(),
    {
        let kw: Vec<char> = vec!['f', 'a', 'l', 's', 'e'];
        let m = Self::match_keyword(input, q, &kw);
        proof {
            assert(kw@ =~= kw_false());
        }
        if m == 5 {
            (TokenKind::False, q + m)
        } else {
            (TokenKind::Invalid, q + m)
        }
    }

    /// Scan a string literal starting at the opening quote `q`; escape pairs
    /// are copied through, and an unterminated literal is `Invalid` and
    /// swallows the rest of the input.
    fn get_str_token(input: &Vec<char>, q: usize) -> (r: (TokenKind, usize))
        requires
            q < input@.len(),
            input@.len() <= usize::MAX,
        ensures
            r.0 == spec_string_scan(input@, q as int).kind,
            r.1 == spec_string_scan(input@, q as int).end,
            q < r.1 <= input@.len() || (r.0 == TokenKind::Invalid && r.1 == input@.len()),
    {
        let mut i: usize = q + 1;
        let mut esc: bool = false;
        loop
            invariant
                q + 1 <= i <= input@.len(),
                spec_str_end(input@, q + 1 as int, false) == spec_str_end(input@, i as int, esc),
            decreases input@.len() - i, (if esc { 0int } else { 1int }),
        {
            if i >= input.len() {
                return (TokenKind::Invalid, input.len());
            }
            let c = input[i];
            if esc {
                esc = false;
                i = i + 1;
            } else if c == '\\' {
                esc = true;
                i = i + 1;
            } else if c == '"' {
                return (TokenKind::Str, i + 1);
            } else {
                i = i + 1;
            }
        }
    }

    /// Scan a number starting at `q` (where `input[q]` is a digit or `-`).
    fn get_number_token(input: &Vec<char>, q: usize) -> (r: (TokenKind, usize))
        requires
            q < input@.len(),
            input@.len() <= usize::MAX,
            is_digit_char(input@[q as int]) || input@[q as int] == '-',
        ensures
            r.0 == spec_number_scan(input@, q as int).kind,
            r.1 == spec_number_scan(input@, q as int).end,
            q < r.1 <= input@.len(),
    {
        proof {
            lemma_digits_end_bounds(input@, q as int);
            lemma_digits_end_bounds(input@, q + 1 as int);
        }
        let d0: usize = if input[q] == '-' {
            if !(q + 1 < input.len() && Self::is_digit(input[q + 1])) {
                return (TokenKind::Invalid, q + 1);
            }
            q + 1
        } else {
            q
        };
        let e1 = Self::digits_end(input, d0);
        proof {
            lemma_digits_end_bounds(input@, d0 as int);
        }
        if e1 < input.len() && input[e1] == '.' {
            if e1 + 1 < input.len() && Self::is_digit(input[e1 + 1]) {
                let e2 = Self::digits_end(input, e1 + 2);
                proof {
                    lemma_digits_end_bounds(input@, e1 + 2 as int);
                }
                (TokenKind::Float, e2)
            } else {
                (TokenKind::Invalid, e1 + 1)
            }
        } else {
            (TokenKind::Integer, e1)
        }
    }

    /// Index of the first non-digit character at or after `p`.
    fn digits_end(input: &Vec<char>, p: usize) -> (q: usize)
        requires
            p <= input@.len(),
        ensures
            q == spec_digits_end(input@, p as int),
            p <= q <= input@.len(),
    {
        let mut i: usize = p;
        while i < input.len() && Self::is_digit(input[i])
            invariant
                p <= i <= input@.len(),
                spec_digits_end(input@, p as int) == spec_digits_end(input@, i as int),
            decreases input@.len() - i,
        {
            i = i + 1;
        }
        proof {
            lemma_digits_end_bounds(input@, p as int);
        }
        i
    }

    /// The characters `input[start..end]`, as an owned string.
    fn text_range(input: &Vec<char>, start: usize, end: usize) -> (s: String)
        requires
            start <= end <= input@.len(),
        ensures
            s@ == input@.subrange(start as int, end as int),
    {
        let mut v: Vec<char> = Vec::new();
        let mut i: usize = start;
        while i < end
            invariant
                start <= i <= end <= input@.len(),
                v@ == input@.subrange(start as int, i as int),
            decreases end - i,
        {
            v.push(input[i]);
            proof {
                assert(v@ =~= input@.subrange(start as int, i + 1 as int));
            }
            i = i + 1;
        }
        chars_to_string(&v)
    }

    /// Recompute the row / line-start counters after moving from `from` to `to`.
    fn advance_loc(input: &Vec<char>, from: usize, row: usize, base: usize, to: usize) -> (r: (
        usize,
        usize,
    ))
        requires
            from <= to <= input@.len(),
            input@.len() < usize::MAX,
            row == spec_rows(input@.take(from as int)),
            base == spec_line_start(input@.take(from as int)),
        ensures
            r.0 == spec_rows(input@.take(to as int)),
            r.1 == spec_line_start(input@.take(to as int)),
    {
        let mut i: usize = from;
        let mut r0: usize = row;
        let mut b0: usize = base;
        while i < to
            invariant
                from <= i <= to <= input@.len(),
                input@.len() < usize::MAX,
                r0 == spec_rows(input@.take(i as int)),
                b0 == spec_line_start(input@.take(i as int)),
            decreases to - i,
        {
            proof {
                lemma_loc_step(input@, i as int);
                lemma_rows_le(input@.take(i as int));
            }
            if input[i] == '\n' {
                r0 = r0 + 1;
                b0 = i + 1;
            }
            i = i + 1;
        }
        (r0, b0)
    }

    /// One full scan step from the given cursor: the token, the new cursor,
    /// and the new row / line-start counters.
    fn scan(input: &Vec<char>, cursor: usize, row: usize, char_count: usize) -> (r: (
        Token,
        usize,
        usize,
        usize,
    ))
        requires
            cursor <= input@.len(),
            input@.len() < usize::MAX,
            row == spec_rows(input@.take(cursor as int)),
            char_count == spec_line_start(input@.take(cursor as int)),
        ensures
            ({
                let sc = spec_scan(input@, cursor as int);
                &&& r.0@ == spec_token_at(input@, sc)
                &&& r.0.kind == sc.kind
                &&& r.1 == sc.end
                &&& cursor <= r.1 <= input@.len()
                &&& r.2 == spec_rows(input@.take(r.1 as int))
                &&& r.3 == spec_line_start(input@.take(r.1 as int))
            }),
    {
        proof {
            lemma_scan_bounds(input@, cursor as int);
        }
        let q = Self::trim(input, cursor);
        if q >= input.len() {
            let (r2, b2) = Self::advance_loc(input, cursor, row, char_count, q);
            proof {
                lemma_rows_le(input@.take(q as int));
                assert(input@.subrange(q as int, q as int) =~= Seq::<char>::empty());
            }
            let t = Token {
                kind: TokenKind::Eof,
                text: String::new(),
                loc: Loc { col: q - b2 + 1, row: r2 + 1 },
            };
            (t, q, r2, b2)
        } else {
            let c = input[q];
            let (kind, end): (TokenKind, usize) = if c == '{' {
                (TokenKind::OpenCurly, q + 1)
            } else if c == '[' {
                (TokenKind::OpenBracket, q + 1)
            } else if c == '}' {
                (TokenKind::CloseCurly, q + 1)
            } else if c == ']' {
                (TokenKind::CloseBracket, q + 1)
            } else if c == ',' {
                (TokenKind::Comma, q + 1)
            } else if c == ':' {
                (TokenKind::Colon, q + 1)
            } else if c == 'n' {
                Self::get_null_token(input, q)
            } else if c == 't' {
                Self::get_true_token(input, q)
            } else if c == 'f' {
                Self::get_false_token(input, q)
            } else if c == '"' {
                Self::get_str_token(input, q)
            } else if Self::is_digit(c) || c == '-' {
                Self::get_number_token(input, q)
            } else {
                (TokenKind::Invalid, q + 1)
            };
            let text = Self::text_range(input, q, end);
            let (r2, b2) = Self::advance_loc(input, cursor, row, char_count, end);
            proof {
                lemma_rows_le(input@.take(end as int));
            }
            let t = Token { kind, text, loc: Loc { col: end - b2 + 1, row: r2 + 1 } };
            (t, end, r2, b2)
        }
    }

    /// Scan and consume the next token, advancing the lexer past it.  After
    /// the `Eof` token has been produced the lexer is exhausted.
    pub fn next_token(&mut self) -> (t: Token)
        requires
            old(self).wf(),
        ensures
            final(self).wf(),
            final(self).input@ == old(self).input@,
            t@ == spec_token_at(old(self).input@, spec_scan(old(self).input@, old(self).cursor as int)),
            t.kind == spec_scan(old(self).input@, old(self).cursor as int).kind,
            final(self).cursor == spec_scan(old(self).input@, old(self).cursor as int).end,
            old(self).cursor <= final(self).cursor,
            final(self).exhausted == (old(self).exhausted || t.kind == TokenKind::Eof),
    {
        proof {
            lemma_scan_bounds(self.input@, self.cursor as int);
        }
        let (t, c2, r2, b2) = Self::scan(&self.input, self.cursor, self.row, self.char_count);
        self.cursor = c2;
        self.row = r2;
        self.char_count = b2;
        if matches!(t.kind, TokenKind::Eof) {
            self.exhausted = true;
        }
        t
    }

    /// Scan the next token without consuming it; `None` once exhausted.
    pub fn peek(&self) -> (r: Option<Token>)
        requires
            self.wf(),
        ensures
            match r {
                Option::None => self.exhausted,
                Option::Some(t) => !self.exhausted
                    && t@ == spec_token_at(self.input@, spec_scan(self.input@, self.cursor as int))
                    && t.kind == spec_scan(self.input@, self.cursor as int).kind,
            },
    {
        if self.exhausted {
            None
        } else {
            let (t, _c2, _r2, _b2) = Self::scan(&self.input, self.cursor, self.row, self.char_count);
            Some(t)
        }
    }

    /// Pull the next token; `None` once the stream is exhausted.
    pub fn next(&mut self) -> (r: Option<Token>)
        requires
            old(self).wf(),
        ensures
            final(self).wf(),
            final(self).input@ == old(self).input@,
            match r {
                Option::None => old(self).exhausted && *final(self) == *old(self),
                Option::Some(t) => !old(self).exhausted
                    && t@ == spec_token_at(old(self).input@, spec_scan(old(self).input@, old(self).cursor as int))
                    && t.kind == spec_scan(old(self).input@, old(self).cursor as int).kind
                    && final(self).cursor == spec_scan(old(self).input@, old(self).cursor as int).end
                    && old(self).cursor <= final(self).cursor
                    && final(self).exhausted == (t.kind == TokenKind::Eof),
            },
    {
        if self.exhausted {
            None
        } else {
            Some(self.next_token())
        }
    }
}

/// Relies on String's FromIterator over chars: collecting a vector of
/// characters yields exactly those characters.
#[verifier::external_body]
pub(crate) fn chars_to_string(v: &Vec<char>) -> (s: String)
    ensures
        s@ == v@,
{
    v.iter().collect()
}

} // verus!
