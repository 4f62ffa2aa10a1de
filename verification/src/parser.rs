//! Recursive-descent parser: consumes the token stream with one token of
//! lookahead and builds an immutable document tree.
//!
//! A context flag says which construct encloses the value being parsed; after
//! each completed value the parser checks that the following token is legal
//! for that context, so error locations point at the offending separator.
//! The whole parse is specified by the spec-level parser `spec_eat`, and each
//! executable function is proved to agree with it exactly.

use vstd::prelude::*;
use crate::lexer::{
    Lexer, Token, TokenKind, TokM, ScanOut, spec_scan, spec_token_at, lemma_scan_bounds,
};
use crate::numbers::{spec_int_lexeme, spec_int_val, parse_i64};

verus! {

broadcast use {vstd::std_specs::vec::group_vec_axioms, vstd::seq::axiom_seq_index_decreases};

/// The construct enclosing the value being parsed, which decides which
/// tokens may legally follow a completed value.
#[derive(Debug, PartialEq, Eq, Structural, Clone, Copy)]
pub enum In {
    Nothing,
    Array,
    Object,
}

/// The parsed document tree.  A `Float` keeps its exact numeric lexeme:
/// floating-point values are handed to callers as text and converted at the
/// boundary, outside the verified core.
#[derive(Debug, PartialEq)]
pub enum JsonData {
    Eof,
    Null,
    Bool(bool),
    Str(String),
    Float(String),
    Integer(i64),
    Array(Vec<JsonData>),
    Object(Vec<(String, JsonData)>),
}

/// Mathematical model of a document tree.
pub enum JsonVal {
    Eof,
    Null,
    Bool(bool),
    Str(Seq<char>),
    Float(Seq<char>),
    Integer(int),
    Array(Seq<JsonVal>),
    Object(Seq<(Seq<char>, JsonVal)>),
}

pub open spec fn view_json(d: JsonData) -> JsonVal
    decreases d,
{
    match d {
        JsonData::Eof => JsonVal::Eof,
        JsonData::Null => JsonVal::Null,
        JsonData::Bool(b) => JsonVal::Bool(b),
        JsonData::Str(s) => JsonVal::Str(s@),
        JsonData::Float(t) => JsonVal::Float(t@),
        JsonData::Integer(i) => JsonVal::Integer(i as int),
        JsonData::Array(v) => JsonVal::Array(view_json_list(v@)),
        JsonData::Object(v) => JsonVal::Object(view_json_entries(v@)),
    }
}

pub open spec fn view_json_list(s: Seq<JsonData>) -> Seq<JsonVal>
    decreases s,
{
    if s.len() == 0 {
        Seq::empty()
    } else {
        seq![view_json(s[0])] + view_json_list(s.drop_first())
    }
}

pub open spec fn view_json_entries(s: Seq<(String, JsonData)>) -> Seq<(Seq<char>, JsonVal)>
    decreases s,
{
    if s.len() == 0 {
        Seq::empty()
    } else {
        seq![(s[0].0@, view_json(s[0].1))] + view_json_entries(s.drop_first())
    }
}

impl View for JsonData {
    type V = JsonVal;

    open spec fn view(&self) -> JsonVal {
        view_json(*self)
    }
}

pub proof fn lemma_view_list_index(s: Seq<JsonData>)
    ensures
        view_json_list(s).len() == s.len(),
        forall|i: int| 0 <= i < s.len() ==> #[trigger] view_json_list(s)[i] == view_json(s[i]),
    decreases s,
{
    if s.len() > 0 {
        lemma_view_list_index(s.drop_first());
    }
}

pub proof fn lemma_view_list_push(s: Seq<JsonData>, d: JsonData)
    ensures
        view_json_list(s.push(d)) == view_json_list(s).push(view_json(d)),
{
    lemma_view_list_index(s);
    lemma_view_list_index(s.push(d));
    assert forall|i: int| 0 <= i < s.push(d).len() implies #[trigger] view_json_list(s.push(d))[i]
        == view_json_list(s).push(view_json(d))[i] by {
        if i < s.len() {
            assert(s.push(d)[i] == s[i]);
        } else {
            assert(s.push(d)[i] == d);
        }
    }
    assert(view_json_list(s.push(d)) =~= view_json_list(s).push(view_json(d)));
}

pub proof fn lemma_view_entries_index(s: Seq<(String, JsonData)>)
    ensures
        view_json_entries(s).len() == s.len(),
        forall|i: int| 0 <= i < s.len() ==> #[trigger] view_json_entries(s)[i] == (
            s[i].0@,
            view_json(s[i].1),
        ),
    decreases s,
{
    if s.len() > 0 {
        lemma_view_entries_index(s.drop_first());
    }
}

#[derive(Debug, PartialEq)]
pub enum ParseError {
    SyntaxError(Token),
    UnexpectedEof,
}

/// Mathematical model of a parse error.
pub enum ParseErrV {
    Syntax(TokM),
    UnexpectedEof,
}

impl View for ParseError {
    type V = ParseErrV;

    open spec fn view(&self) -> ParseErrV {
        match self {
            ParseError::SyntaxError(t) => ParseErrV::Syntax(t@),
            ParseError::UnexpectedEof => ParseErrV::UnexpectedEof,
        }
    }
}

/// Unescape a string body: the two-character escapes `\\` and `\"` become
/// `\` and `"`; any other character, backslash included, passes through.
pub open spec fn spec_unescape(s: Seq<char>) -> Seq<char>
    decreases s.len(),
{
    if s.len() == 0 {
        Seq::empty()
    } else if s[0] == '\\' && s.len() >= 2 && (s[1] == '\\' || s[1] == '"') {
        seq![s[1]] + spec_unescape(s.skip(2))
    } else {
        seq![s[0]] + spec_unescape(s.skip(1))
    }
}

/// Strip the surrounding quotes from a string lexeme and resolve its escapes.
pub open spec fn spec_unquote(text: Seq<char>) -> Seq<char> {
    spec_unescape(text.subrange(1, text.len() - 1))
}

/// Which tokens may follow a completed value in each context: a comma inside
/// any collection, the matching closer of the enclosing collection, and end
/// of input at the top level.
pub open spec fn spec_follow_ok(kind: TokenKind, ctx: In) -> bool {
    ||| (kind == TokenKind::Comma && (ctx == In::Array || ctx == In::Object))
    ||| (kind == TokenKind::CloseBracket && ctx == In::Array)
    ||| (kind == TokenKind::CloseCurly && ctx == In::Object)
    ||| (kind == TokenKind::Eof && ctx == In::Nothing)
}

/// The token the parser's one-token lookahead sees: `None` once the `Eof`
/// token has been consumed.
pub open spec fn spec_peek(s: Seq<char>, p: int, taken: bool) -> Option<ScanOut> {
    if taken {
        None
    } else {
        Some(spec_scan(s, p))
    }
}

/// Validate the token following a completed value against the context; on
/// success the value is returned and the lookahead is not consumed.
pub open spec fn spec_finish(s: Seq<char>, p: int, taken: bool, ctx: In, v: JsonVal) -> Result<
    (JsonVal, int, bool),
    ParseErrV,
> {
    match spec_peek(s, p, taken) {
        None => Err(ParseErrV::UnexpectedEof),
        Some(sc) => if spec_follow_ok(sc.kind, ctx) {
            Ok((v, p, taken))
        } else {
            Err(ParseErrV::Syntax(spec_token_at(s, sc)))
        },
    }
}

/// Overwrite the value under `key` if present (keeping its position), else
/// append the new entry.
pub open spec fn spec_obj_insert(
    entries: Seq<(Seq<char>, JsonVal)>,
    key: Seq<char>,
    v: JsonVal,
) -> Seq<(Seq<char>, JsonVal)>
    decreases entries.len(),
{
    if entries.len() == 0 {
        seq![(key, v)]
    } else if entries[0].0 == key {
        seq![(key, v)] + entries.drop_first()
    } else {
        seq![entries[0]] + spec_obj_insert(entries.drop_first(), key, v)
    }
}

/// Termination guard for the loop recursions below.  On every call the
/// definitions actually make it is the identity, since a successful element
/// parse always makes progress (`lemma_eat_progress`); the fallback exists
/// only so the recursion is well founded by construction.
pub open spec fn spec_step(s: Seq<char>, p: int, p2: int, t2: bool) -> (int, bool) {
    if p < p2 <= s.len() {
        (p2, t2)
    } else if p2 == p && t2 {
        (p2, t2)
    } else {
        (p + 1, t2)
    }
}

/// Parse one value from position `p` in context `ctx`, then validate the
/// token that follows it.  `taken` says whether the `Eof` token has already
/// been consumed.  Returns the value, the position after it, and the new
/// `taken` flag; or the first error.
pub open spec fn spec_eat(s: Seq<char>, p: int, taken: bool, ctx: In) -> Result<
    (JsonVal, int, bool),
    ParseErrV,
>
    decreases s.len() - p, (if taken { 0int } else { 1int }), 1int
        when 0 <= p <= s.len()
{
    match spec_peek(s, p, taken) {
        None => Ok((JsonVal::Eof, p, taken)),
        Some(sc) => {
            let tok = spec_token_at(s, sc);
            proof {
                lemma_scan_bounds(s, p);
            }
            match sc.kind {
                TokenKind::CloseBracket => Err(ParseErrV::Syntax(tok)),
                TokenKind::Comma => Err(ParseErrV::Syntax(tok)),
                TokenKind::Colon => Err(ParseErrV::Syntax(tok)),
                TokenKind::CloseCurly => Err(ParseErrV::Syntax(tok)),
                TokenKind::Invalid => Err(ParseErrV::Syntax(tok)),
                TokenKind::OpenCurly => match spec_obj_items(
                    s,
                    sc.end,
                    false,
                    Seq::empty(),
                    true,
                    Seq::empty(),
                ) {
                    Ok((entries, p2, t2)) => spec_finish(s, p2, t2, ctx, JsonVal::Object(entries)),
                    Err(e) => Err(e),
                },
                TokenKind::OpenBracket => match spec_arr_items(s, sc.end, false, Seq::empty()) {
                    Ok((items, p2, t2)) => spec_finish(s, p2, t2, ctx, JsonVal::Array(items)),
                    Err(e) => Err(e),
                },
                TokenKind::Integer => if spec_int_lexeme(tok.text) && i64::MIN <= spec_int_val(
                    tok.text,
                ) <= i64::MAX {
                    spec_finish(s, sc.end, false, ctx, JsonVal::Integer(spec_int_val(tok.text)))
                } else {
                    Err(ParseErrV::Syntax(tok))
                },
                TokenKind::Float => spec_finish(s, sc.end, false, ctx, JsonVal::Float(tok.text)),
                TokenKind::Str => spec_finish(
                    s,
                    sc.end,
                    false,
                    ctx,
                    JsonVal::Str(spec_unquote(tok.text)),
                ),
                TokenKind::Null => spec_finish(s, sc.end, false, ctx, JsonVal::Null),
                TokenKind::True => spec_finish(s, sc.end, false, ctx, JsonVal::Bool(true)),
                TokenKind::False => spec_finish(s, sc.end, false, ctx, JsonVal::Bool(false)),
                TokenKind::Eof => Ok((JsonVal::Eof, sc.end, true)),
            }
        },
    }
}

/// The array loop after `[`: a `]` ends the array, commas are skipped, and
/// anything else is parsed as an array-context element and appended.
pub open spec fn spec_arr_items(s: Seq<char>, p: int, taken: bool, acc: Seq<JsonVal>) -> Result<
    (Seq<JsonVal>, int, bool),
    ParseErrV,
>
    decreases s.len() - p, (if taken { 0int } else { 1int }), 2int
        when 0 <= p <= s.len()
{
    match spec_peek(s, p, taken) {
        None => Ok((acc, p, taken)),
        Some(sc) => {
            proof {
                lemma_scan_bounds(s, p);
            }
            match sc.kind {
                TokenKind::CloseBracket => Ok((acc, sc.end, false)),
                TokenKind::Comma => spec_arr_items(s, sc.end, false, acc),
                TokenKind::Eof => spec_arr_items(s, sc.end, true, acc.push(JsonVal::Eof)),
                _ => match spec_eat(s, p, taken, In::Array) {
                    Ok((v, p2, t2)) => {
                        let n2 = spec_step(s, p, p2, t2);
                        spec_arr_items(s, n2.0, n2.1, acc.push(v))
                    },
                    Err(e) => Err(e),
                },
            }
        },
    }
}

/// The object loop after `{`: `}` ends the object; a comma returns to
/// expecting a key and is an error while a key is still expected; a colon
/// switches to expecting a value and is an error when no key is pending; a
/// string while a key is expected becomes the pending key; any value parsed
/// in object context is inserted under the pending key, overwriting an
/// earlier value for the same key.
pub open spec fn spec_obj_items(
    s: Seq<char>,
    p: int,
    taken: bool,
    acc: Seq<(Seq<char>, JsonVal)>,
    is_key: bool,
    key: Seq<char>,
) -> Result<(Seq<(Seq<char>, JsonVal)>, int, bool), ParseErrV>
    decreases s.len() - p, (if taken { 0int } else { 1int }), 2int
        when 0 <= p <= s.len()
{
    match spec_peek(s, p, taken) {
        None => Ok((acc, p, taken)),
        Some(sc) => {
            let tok = spec_token_at(s, sc);
            proof {
                lemma_scan_bounds(s, p);
            }
            match sc.kind {
                TokenKind::CloseCurly => Ok((acc, sc.end, false)),
                TokenKind::Comma => if is_key {
                    Err(ParseErrV::Syntax(tok))
                } else {
                    spec_obj_items(s, sc.end, false, acc, true, key)
                },
                TokenKind::Colon => if !is_key {
                    Err(ParseErrV::Syntax(tok))
                } else {
                    spec_obj_items(s, sc.end, false, acc, false, key)
                },
                TokenKind::Str => if is_key {
                    spec_obj_items(s, sc.end, false, acc, true, spec_unquote(tok.text))
                } else {
                    match spec_eat(s, p, taken, In::Object) {
                        Ok((v, p2, t2)) => {
                            let n2 = spec_step(s, p, p2, t2);
                            spec_obj_items(s, n2.0, n2.1, spec_obj_insert(acc, key, v), is_key, key)
                        },
                        Err(e) => Err(e),
                    }
                },
                TokenKind::Eof => if is_key {
                    Err(ParseErrV::Syntax(tok))
                } else {
                    spec_obj_items(s, sc.end, true, spec_obj_insert(acc, key, JsonVal::Eof), is_key, key)
                },
                _ => if is_key {
                    Err(ParseErrV::Syntax(tok))
                } else {
                    match spec_eat(s, p, taken, In::Object) {
                        Ok((v, p2, t2)) => {
                            let n2 = spec_step(s, p, p2, t2);
                            spec_obj_items(s, n2.0, n2.1, spec_obj_insert(acc, key, v), is_key, key)
                        },
                        Err(e) => Err(e),
                    }
                },
            }
        },
    }
}

/// Progress of the parser: a successful parse step never moves backwards,
/// consumes at least one token when the lookahead was alive, and leaves the
/// stream exhausted exactly when it consumed the `Eof` token.  In
/// consequence the guard `spec_step` is the identity on every call the
/// definitions above actually make.
pub proof fn lemma_eat_progress(s: Seq<char>, p: int, taken: bool, ctx: In)
    requires
        0 <= p <= s.len(),
    ensures
        spec_eat(s, p, taken, ctx) matches Ok(r) ==> p <= r.1 <= s.len() && (taken ==> r.1 == p
            && r.2) && (!taken ==> r.1 > p || r.2),
    decreases s.len() - p, (if taken { 0int } else { 1int }), 1int,
{
    if !taken {
        lemma_scan_bounds(s, p);
        let sc = spec_scan(s, p);
        match sc.kind {
            TokenKind::OpenCurly => {
                lemma_obj_items_progress(s, sc.end, false, Seq::empty(), true, Seq::empty());
            },
            TokenKind::OpenBracket => {
                lemma_arr_items_progress(s, sc.end, false, Seq::empty());
            },
            _ => {
            },
        }
    }
}

pub proof fn lemma_arr_items_progress(s: Seq<char>, p: int, taken: bool, acc: Seq<JsonVal>)
    requires
        0 <= p <= s.len(),
    ensures
        spec_arr_items(s, p, taken, acc) matches Ok(r) ==> p <= r.1 <= s.len(),
    decreases s.len() - p, (if taken { 0int } else { 1int }), 2int,
{
    if !taken {
        lemma_scan_bounds(s, p);
        let sc = spec_scan(s, p);
        match sc.kind {
            TokenKind::CloseBracket => {
            },
            TokenKind::Comma => {
                lemma_arr_items_progress(s, sc.end, false, acc);
            },
            TokenKind::Eof => {
                lemma_arr_items_progress(s, sc.end, true, acc.push(JsonVal::Eof));
            },
            _ => {
                lemma_eat_progress(s, p, taken, In::Array);
                match spec_eat(s, p, taken, In::Array) {
                    Ok((v, p2, t2)) => {
                        let n2 = spec_step(s, p, p2, t2);
                        assert(n2 == (p2, t2));
                        lemma_arr_items_progress(s, p2, t2, acc.push(v));
                    },
                    Err(_) => {
                    },
                }
            },
        }
    }
}

pub proof fn lemma_obj_items_progress(
    s: Seq<char>,
    p: int,
    taken: bool,
    acc: Seq<(Seq<char>, JsonVal)>,
    is_key: bool,
    key: Seq<char>,
)
    requires
        0 <= p <= s.len(),
    ensures
        spec_obj_items(s, p, taken, acc, is_key, key) matches Ok(r) ==> p <= r.1 <= s.len(),
    decreases s.len() - p, (if taken { 0int } else { 1int }), 2int,
{
    if !taken {
        lemma_scan_bounds(s, p);
        let sc = spec_scan(s, p);
        let tok = spec_token_at(s, sc);
        match sc.kind {
            TokenKind::CloseCurly => {
            },
            TokenKind::Comma => {
                if !is_key {
                    lemma_obj_items_progress(s, sc.end, false, acc, true, key);
                }
            },
            TokenKind::Colon => {
                if is_key {
                    lemma_obj_items_progress(s, sc.end, false, acc, false, key);
                }
            },
            TokenKind::Str => {
                if is_key {
                    lemma_obj_items_progress(s, sc.end, false, acc, true, spec_unquote(tok.text));
                } else {
                    lemma_eat_progress(s, p, taken, In::Object);
                    match spec_eat(s, p, taken, In::Object) {
                        Ok((v, p2, t2)) => {
                            let n2 = spec_step(s, p, p2, t2);
                            assert(n2 == (p2, t2));
                            lemma_obj_items_progress(
                                s,
                                p2,
                                t2,
                                spec_obj_insert(acc, key, v),
                                is_key,
                                key,
                            );
                        },
                        Err(_) => {
                        },
                    }
                }
            },
            TokenKind::Eof => {
                if !is_key {
                    lemma_obj_items_progress(
                        s,
                        sc.end,
                        true,
                        spec_obj_insert(acc, key, JsonVal::Eof),
                        is_key,
                        key,
                    );
                }
            },
            _ => {
                if !is_key {
                    lemma_eat_progress(s, p, taken, In::Object);
                    match spec_eat(s, p, taken, In::Object) {
                        Ok((v, p2, t2)) => {
                            let n2 = spec_step(s, p, p2, t2);
                            assert(n2 == (p2, t2));
                            lemma_obj_items_progress(
                                s,
                                p2,
                                t2,
                                spec_obj_insert(acc, key, v),
                                is_key,
                                key,
                            );
                        },
                        Err(_) => {
                        },
                    }
                }
            },
        }
    }
}

/// The whole parse: one top-level value in the `Nothing` context.
pub open spec fn spec_parse(s: Seq<char>) -> Result<JsonVal, ParseErrV> {
    match spec_eat(s, 0, false, In::Nothing) {
        Ok(r) => Ok(r.0),
        Err(e) => Err(e),
    }
}


/// Keys already scanned disagree with `key`: the insert appends a new entry.
pub proof fn lemma_obj_insert_absent(
    entries: Seq<(Seq<char>, JsonVal)>,
    key: Seq<char>,
    v: JsonVal,
)
    requires
        forall|i: int| 0 <= i < entries.len() ==> (#[trigger] entries[i]).0 != key,
    ensures
        spec_obj_insert(entries, key, v) == entries.push((key, v)),
    decreases entries.len(),
{
    if entries.len() == 0 {
        assert(spec_obj_insert(entries, key, v) =~= entries.push((key, v)));
    } else {
        assert(entries[0].0 != key);
        let rest = entries.drop_first();
        assert forall|i: int| 0 <= i < rest.len() implies (#[trigger] rest[i]).0 != key by {
            assert(rest[i] == entries[i + 1]);
        }
        lemma_obj_insert_absent(rest, key, v);
        assert(spec_obj_insert(entries, key, v) =~= entries.push((key, v)));
    }
}

/// `j` is the first index holding `key`: the insert overwrites it in place.
pub proof fn lemma_obj_insert_found(
    entries: Seq<(Seq<char>, JsonVal)>,
    key: Seq<char>,
    v: JsonVal,
    j: int,
)
    requires
        0 <= j < entries.len(),
        entries[j].0 == key,
        forall|i: int| 0 <= i < j ==> (#[trigger] entries[i]).0 != key,
    ensures
        spec_obj_insert(entries, key, v) == entries.update(j, (key, v)),
    decreases entries.len(),
{
    if j == 0 {
        assert(spec_obj_insert(entries, key, v) =~= entries.update(0, (key, v)));
    } else {
        assert(entries[0].0 != key);
        let rest = entries.drop_first();
        assert(rest[j - 1] == entries[j]);
        assert forall|i: int| 0 <= i < j - 1 implies (#[trigger] rest[i]).0 != key by {
            assert(rest[i] == entries[i + 1]);
        }
        lemma_obj_insert_found(rest, key, v, j - 1);
        assert(seq![entries[0]] + rest.update(j - 1, (key, v)) =~= entries.update(j, (key, v)));
    }
}

pub proof fn lemma_view_entries_push(s: Seq<(String, JsonData)>, e: (String, JsonData))
    ensures
        view_json_entries(s.push(e)) == view_json_entries(s).push((e.0@, view_json(e.1))),
{
    lemma_view_entries_index(s);
    lemma_view_entries_index(s.push(e));
    assert forall|i: int| 0 <= i < s.push(e).len() implies #[trigger] view_json_entries(s.push(e))[i]
        == view_json_entries(s).push((e.0@, view_json(e.1)))[i] by {
        if i < s.len() {
            assert(s.push(e)[i] == s[i]);
        } else {
            assert(s.push(e)[i] == e);
        }
    }
    assert(view_json_entries(s.push(e)) =~= view_json_entries(s).push((e.0@, view_json(e.1))));
}

pub proof fn lemma_view_entries_update(s: Seq<(String, JsonData)>, j: int, e: (String, JsonData))
    requires
        0 <= j < s.len(),
    ensures
        view_json_entries(s.update(j, e)) == view_json_entries(s).update(j, (e.0@, view_json(e.1))),
{
    lemma_view_entries_index(s);
    lemma_view_entries_index(s.update(j, e));
    assert forall|i: int| 0 <= i < s.update(j, e).len() implies #[trigger] view_json_entries(
        s.update(j, e),
    )[i] == view_json_entries(s).update(j, (e.0@, view_json(e.1)))[i] by {
        if i != j {
            assert(s.update(j, e)[i] == s[i]);
        } else {
            assert(s.update(j, e)[i] == e);
        }
    }
    assert(view_json_entries(s.update(j, e)) =~= view_json_entries(s).update(
        j,
        (e.0@, view_json(e.1)),
    ));
}

/// Insert under `key`, overwriting in place an earlier entry with that key.
fn obj_insert(entries: &mut Vec<(String, JsonData)>, key: String, val: JsonData)
    ensures
        view_json_entries(final(entries)@) == spec_obj_insert(
            view_json_entries(old(entries)@),
            key@,
            view_json(val),
        ),
{
    proof {
        lemma_view_entries_index(entries@);
    }
    let mut i: usize = 0;
    while i < entries.len()
        invariant
            i <= entries@.len(),
            entries@ == old(entries)@,
            forall|j: int| 0 <= j < i ==> (#[trigger] entries@[j]).0@ != key@,
        decreases entries@.len() - i,
    {
        if entries[i].0 == key {
            proof {
                lemma_view_entries_index(entries@);
                let ev = view_json_entries(entries@);
                assert forall|j: int| 0 <= j < i implies (#[trigger] ev[j]).0 != key@ by {
                    assert(ev[j] == (entries@[j].0@, view_json(entries@[j].1)));
                }
                assert(ev[i as int].0 == key@);
                lemma_obj_insert_found(ev, key@, view_json(val), i as int);
            }
            let ghost pre = entries@;
            entries.set(i, (key, val));
            proof {
                lemma_view_entries_update(pre, i as int, (entries@[i as int].0, entries@[i as int].1));
                assert(entries@ == pre.update(i as int, entries@[i as int]));
            }
            return;
        }
        i = i + 1;
    }
    proof {
        lemma_view_entries_index(entries@);
        let ev = view_json_entries(entries@);
        assert forall|j: int| 0 <= j < ev.len() implies (#[trigger] ev[j]).0 != key@ by {
            assert(ev[j] == (entries@[j].0@, view_json(entries@[j].1)));
        }
        lemma_obj_insert_absent(ev, key@, view_json(val));
        lemma_view_entries_push(entries@, (key, val));
    }
    entries.push((key, val));
}

/// Strip the surrounding quotes from a string lexeme and resolve the escapes
/// `\\` and `\"`; any other character passes through unchanged.
pub fn remove_surrounding_quotes(text: &str) -> (r: String)
    requires
        text@.len() >= 2,
    ensures
        r@ == spec_unquote(text@),
{
    let n = text.unicode_len();
    let ghost inner = text@.subrange(1, text@.len() - 1);
    let mut out: Vec<char> = Vec::new();
    let mut i: usize = 1;
    proof {
        assert(inner.skip(0) =~= inner);
        assert(out@ + spec_unescape(inner) =~= spec_unescape(inner));
    }
    while i < n - 1
        invariant
            1 <= i <= n - 1,
            n == text@.len(),
            n >= 2,
            inner == text@.subrange(1, n - 1),
            out@ + spec_unescape(inner.skip(i - 1)) == spec_unescape(inner),
        decreases n - i,
    {
        let ghost rem = inner.skip(i - 1);
        let ghost out0 = out@;
        proof {
            assert(rem.len() == n - 1 - i);
            assert(rem[0] == text@[i as int]);
        }
        let c = text.get_char(i);
        if c == '\\' && i + 1 < n - 1 {
            let c2 = text.get_char(i + 1);
            proof {
                assert(rem[1] == text@[i + 1]);
            }
            if c2 == '\\' || c2 == '"' {
                out.push(c2);
                proof {
                    assert(rem.skip(2) =~= inner.skip(i + 1));
                    assert(spec_unescape(rem) == seq![rem[1]] + spec_unescape(rem.skip(2)));
                    assert(out@ =~= out0 + seq![c2]);
                    assert((out0 + seq![c2]) + spec_unescape(inner.skip(i + 1)) =~= out0 + (
                    seq![c2] + spec_unescape(inner.skip(i + 1))));
                }
                i = i + 2;
            } else {
                out.push(c);
                proof {
                    assert(rem.skip(1) =~= inner.skip(i as int));
                    assert(spec_unescape(rem) == seq![rem[0]] + spec_unescape(rem.skip(1)));
                    assert(out@ =~= out0 + seq![c]);
                    assert((out0 + seq![c]) + spec_unescape(inner.skip(i as int)) =~= out0 + (
                    seq![c] + spec_unescape(inner.skip(i as int))));
                }
                i = i + 1;
            }
        } else {
            out.push(c);
            proof {
                assert(rem.skip(1) =~= inner.skip(i as int));
                assert(spec_unescape(rem) == seq![rem[0]] + spec_unescape(rem.skip(1)));
                assert(out@ =~= out0 + seq![c]);
                assert((out0 + seq![c]) + spec_unescape(inner.skip(i as int)) =~= out0 + (
                seq![c] + spec_unescape(inner.skip(i as int))));
            }
            i = i + 1;
        }
    }
    proof {
        assert(inner.skip(i - 1) =~= Seq::<char>::empty());
        assert(out@ + spec_unescape(inner.skip(i - 1)) =~= out@);
    }
    crate::lexer::chars_to_string(&out)
}

/// Check that the token following a completed value is legal for the
/// enclosing context; the lookahead is not consumed.
fn is_next_valid(lexer: &Lexer, current: JsonData, is_in: &In) -> (r: Result<JsonData, ParseError>)
    requires
        lexer.wf(),
    ensures
        ({
            let sp = spec_finish(
                lexer.input@,
                lexer.cursor as int,
                lexer.exhausted,
                *is_in,
                view_json(current),
            );
            match r {
                Ok(d) => d == current && sp == Ok::<(JsonVal, int, bool), ParseErrV>(
                    (view_json(current), lexer.cursor as int, lexer.exhausted),
                ),
                Err(e) => sp == Err::<(JsonVal, int, bool), ParseErrV>(e@),
            }
        }),
{
    match lexer.peek() {
        None => Err(ParseError::UnexpectedEof),
        Some(next_token) => {
            let kind_ok = (next_token.kind == TokenKind::Comma && (matches!(*is_in, In::Array)
                || matches!(*is_in, In::Object))) || (next_token.kind == TokenKind::CloseBracket
                && matches!(*is_in, In::Array)) || (next_token.kind == TokenKind::CloseCurly
                && matches!(*is_in, In::Object)) || (next_token.kind == TokenKind::Eof && matches!(
                *is_in,
                In::Nothing,
            ));
            if kind_ok {
                Ok(current)
            } else {
                Err(ParseError::SyntaxError(next_token))
            }
        },
    }
}

fn parse_json_eof(lexer: &mut Lexer, _is_in: &In) -> (r: Result<JsonData, ParseError>)
    requires
        old(lexer).wf(),
        old(lexer).exhausted || spec_scan(old(lexer).input@, old(lexer).cursor as int).kind
            == TokenKind::Eof,
    ensures
        final(lexer).wf(),
        final(lexer).input@ == old(lexer).input@,
        old(lexer).cursor <= final(lexer).cursor,
        r == Ok::<JsonData, ParseError>(JsonData::Eof),
        old(lexer).exhausted ==> *final(lexer) == *old(lexer),
        !old(lexer).exhausted ==> final(lexer).cursor == spec_scan(
            old(lexer).input@,
            old(lexer).cursor as int,
        ).end && final(lexer).exhausted,
{
    let _t = lexer.next();
    Ok(JsonData::Eof)
}

fn parse_json_null(lexer: &mut Lexer, is_in: &In) -> (r: Result<JsonData, ParseError>)
    requires
        old(lexer).wf(),
        !old(lexer).exhausted,
        spec_scan(old(lexer).input@, old(lexer).cursor as int).kind == TokenKind::Null,
    ensures
        final(lexer).wf(),
        final(lexer).input@ == old(lexer).input@,
        final(lexer).cursor == spec_scan(old(lexer).input@, old(lexer).cursor as int).end,
        !final(lexer).exhausted,
        ({
            let s = old(lexer).input@;
            let sc = spec_scan(s, old(lexer).cursor as int);
            let sp = spec_finish(s, sc.end, false, *is_in, JsonVal::Null);
            match r {
                Ok(d) => sp == Ok::<(JsonVal, int, bool), ParseErrV>(
                    (view_json(d), final(lexer).cursor as int, final(lexer).exhausted),
                ),
                Err(e) => sp == Err::<(JsonVal, int, bool), ParseErrV>(e@),
            }
        }),
{
    let _t = lexer.next();
    is_next_valid(lexer, JsonData::Null, is_in)
}

fn parse_json_true(lexer: &mut Lexer, is_in: &In) -> (r: Result<JsonData, ParseError>)
    requires
        old(lexer).wf(),
        !old(lexer).exhausted,
        spec_scan(old(lexer).input@, old(lexer).cursor as int).kind == TokenKind::True,
    ensures
        final(lexer).wf(),
        final(lexer).input@ == old(lexer).input@,
        final(lexer).cursor == spec_scan(old(lexer).input@, old(lexer).cursor as int).end,
        !final(lexer).exhausted,
        ({
            let s = old(lexer).input@;
            let sc = spec_scan(s, old(lexer).cursor as int);
            let sp = spec_finish(s, sc.end, false, *is_in, JsonVal::Bool(true));
            match r {
                Ok(d) => sp == Ok::<(JsonVal, int, bool), ParseErrV>(
                    (view_json(d), final(lexer).cursor as int, final(lexer).exhausted),
                ),
                Err(e) => sp == Err::<(JsonVal, int, bool), ParseErrV>(e@),
            }
        }),
{
    let _t = lexer.next();
    is_next_valid(lexer, JsonData::Bool(true), is_in)
}

fn parse_json_false(lexer: &mut Lexer, is_in: &In) -> (r: Result<JsonData, ParseError>)
    requires
        old(lexer).wf(),
        !old(lexer).exhausted,
        spec_scan(old(lexer).input@, old(lexer).cursor as int).kind == TokenKind::False,
    ensures
        final(lexer).wf(),
        final(lexer).input@ == old(lexer).input@,
        final(lexer).cursor == spec_scan(old(lexer).input@, old(lexer).cursor as int).end,
        !final(lexer).exhausted,
        ({
            let s = old(lexer).input@;
            let sc = spec_scan(s, old(lexer).cursor as int);
            let sp = spec_finish(s, sc.end, false, *is_in, JsonVal::Bool(false));
            match r {
                Ok(d) => sp == Ok::<(JsonVal, int, bool), ParseErrV>(
                    (view_json(d), final(lexer).cursor as int, final(lexer).exhausted),
                ),
                Err(e) => sp == Err::<(JsonVal, int, bool), ParseErrV>(e@),
            }
        }),
{
    let _t = lexer.next();
    is_next_valid(lexer, JsonData::Bool(false), is_in)
}

fn parse_json_str(lexer: &mut Lexer, is_in: &In) -> (r: Result<JsonData, ParseError>)
    requires
        old(lexer).wf(),
        !old(lexer).exhausted,
        spec_scan(old(lexer).input@, old(lexer).cursor as int).kind == TokenKind::Str,
    ensures
        final(lexer).wf(),
        final(lexer).input@ == old(lexer).input@,
        final(lexer).cursor == spec_scan(old(lexer).input@, old(lexer).cursor as int).end,
        !final(lexer).exhausted,
        ({
            let s = old(lexer).input@;
            let sc = spec_scan(s, old(lexer).cursor as int);
            let sp = spec_finish(
                s,
                sc.end,
                false,
                *is_in,
                JsonVal::Str(spec_unquote(spec_token_at(s, sc).text)),
            );
            match r {
                Ok(d) => sp == Ok::<(JsonVal, int, bool), ParseErrV>(
                    (view_json(d), final(lexer).cursor as int, final(lexer).exhausted),
                ),
                Err(e) => sp == Err::<(JsonVal, int, bool), ParseErrV>(e@),
            }
        }),
{
    proof {
        lemma_scan_bounds(old(lexer).input@, old(lexer).cursor as int);
        crate::lexer::lemma_scan_str_shape(old(lexer).input@, old(lexer).cursor as int);
    }
    let token = lexer.next().unwrap();
    let inner = remove_surrounding_quotes(token.text.as_str());
    is_next_valid(lexer, JsonData::Str(inner), is_in)
}

fn parse_json_float(lexer: &mut Lexer, is_in: &In) -> (r: Result<JsonData, ParseError>)
    requires
        old(lexer).wf(),
        !old(lexer).exhausted,
        spec_scan(old(lexer).input@, old(lexer).cursor as int).kind == TokenKind::Float,
    ensures
        final(lexer).wf(),
        final(lexer).input@ == old(lexer).input@,
        final(lexer).cursor == spec_scan(old(lexer).input@, old(lexer).cursor as int).end,
        !final(lexer).exhausted,
        ({
            let s = old(lexer).input@;
            let sc = spec_scan(s, old(lexer).cursor as int);
            let sp = spec_finish(s, sc.end, false, *is_in, JsonVal::Float(spec_token_at(s, sc).text));
            match r {
                Ok(d) => sp == Ok::<(JsonVal, int, bool), ParseErrV>(
                    (view_json(d), final(lexer).cursor as int, final(lexer).exhausted),
                ),
                Err(e) => sp == Err::<(JsonVal, int, bool), ParseErrV>(e@),
            }
        }),
{
    let token = lexer.next().unwrap();
    is_next_valid(lexer, JsonData::Float(token.text), is_in)
}

fn parse_json_integer(lexer: &mut Lexer, is_in: &In) -> (r: Result<JsonData, ParseError>)
    requires
        old(lexer).wf(),
        !old(lexer).exhausted,
        spec_scan(old(lexer).input@, old(lexer).cursor as int).kind == TokenKind::Integer,
    ensures
        final(lexer).wf(),
        final(lexer).input@ == old(lexer).input@,
        final(lexer).cursor == spec_scan(old(lexer).input@, old(lexer).cursor as int).end,
        !final(lexer).exhausted,
        ({
            let s = old(lexer).input@;
            let sc = spec_scan(s, old(lexer).cursor as int);
            let tok = spec_token_at(s, sc);
            let sp = if spec_int_lexeme(tok.text) && i64::MIN <= spec_int_val(tok.text)
                <= i64::MAX {
                spec_finish(s, sc.end, false, *is_in, JsonVal::Integer(spec_int_val(tok.text)))
            } else {
                Err::<(JsonVal, int, bool), ParseErrV>(ParseErrV::Syntax(tok))
            };
            match r {
                Ok(d) => sp == Ok::<(JsonVal, int, bool), ParseErrV>(
                    (view_json(d), final(lexer).cursor as int, final(lexer).exhausted),
                ),
                Err(e) => sp == Err::<(JsonVal, int, bool), ParseErrV>(e@),
            }
        }),
{
    let token = lexer.next().unwrap();
    match parse_i64(token.text.as_str()) {
        Some(i) => is_next_valid(lexer, JsonData::Integer(i), is_in),
        None => Err(ParseError::SyntaxError(token)),
    }
}

fn parse_json_array(lexer: &mut Lexer, is_in: &In) -> (r: Result<JsonData, ParseError>)
    requires
        old(lexer).wf(),
        !old(lexer).exhausted,
        spec_scan(old(lexer).input@, old(lexer).cursor as int).kind == TokenKind::OpenBracket,
    ensures
        final(lexer).wf(),
        final(lexer).input@ == old(lexer).input@,
        old(lexer).cursor < final(lexer).cursor,
        ({
            let s = old(lexer).input@;
            let sc = spec_scan(s, old(lexer).cursor as int);
            let sp = match spec_arr_items(s, sc.end, false, Seq::empty()) {
                Ok((items, p2, t2)) => spec_finish(s, p2, t2, *is_in, JsonVal::Array(items)),
                Err(e) => Err(e),
            };
            match r {
                Ok(d) => sp == Ok::<(JsonVal, int, bool), ParseErrV>(
                    (view_json(d), final(lexer).cursor as int, final(lexer).exhausted),
                ),
                Err(e) => sp == Err::<(JsonVal, int, bool), ParseErrV>(e@),
            }
        }),
    decreases old(lexer).input@.len() - old(lexer).cursor, 0int,
{
    let ghost s = old(lexer).input@;
    let ghost p0 = old(lexer).cursor as int;
    let ghost sc = spec_scan(s, p0);
    proof {
        lemma_scan_bounds(s, p0);
    }
    let _t = lexer.next();
    let mut arr: Vec<JsonData> = Vec::new();
    loop
        invariant_except_break
            lexer.wf(),
            s == old(lexer).input@,
            p0 == old(lexer).cursor as int,
            sc == spec_scan(s, p0),
            0 <= sc.end <= s.len(),
            lexer.input@ == s,
            p0 < lexer.cursor,
            spec_arr_items(s, sc.end, false, Seq::empty()) == spec_arr_items(
                s,
                lexer.cursor as int,
                lexer.exhausted,
                view_json_list(arr@),
            ),
        ensures
            lexer.wf(),
            lexer.input@ == s,
            p0 < lexer.cursor,
            spec_arr_items(s, sc.end, false, Seq::empty()) == Ok::<
                (Seq<JsonVal>, int, bool),
                ParseErrV,
            >((view_json_list(arr@), lexer.cursor as int, lexer.exhausted)),
        decreases s.len() - lexer.cursor, (if lexer.exhausted { 0int } else { 1int }),
    {
        let ghost pcur = lexer.cursor as int;
        match lexer.peek() {
            None => {
                break;
            },
            Some(token) => {
                proof {
                    lemma_scan_bounds(s, pcur);
                }
                if token.kind == TokenKind::CloseBracket {
                    let _t2 = lexer.next();
                    break;
                } else if token.kind == TokenKind::Comma {
                    let _t2 = lexer.next();
                } else {
                    let elem = eat(lexer, &In::Array);
                    match elem {
                        Ok(e) => {
                            proof {
                                lemma_view_list_push(arr@, e);
                                assert(spec_step(
                                    s,
                                    pcur,
                                    lexer.cursor as int,
                                    lexer.exhausted,
                                ) == (lexer.cursor as int, lexer.exhausted));
                            }
                            arr.push(e);
                        },
                        Err(err) => {
                            return Err(err);
                        },
                    }
                }
            },
        }
    }
    is_next_valid(lexer, JsonData::Array(arr), is_in)
}

fn parse_json_object(lexer: &mut Lexer, is_in: &In) -> (r: Result<JsonData, ParseError>)
    requires
        old(lexer).wf(),
        !old(lexer).exhausted,
        spec_scan(old(lexer).input@, old(lexer).cursor as int).kind == TokenKind::OpenCurly,
    ensures
        final(lexer).wf(),
        final(lexer).input@ == old(lexer).input@,
        old(lexer).cursor < final(lexer).cursor,
        ({
            let s = old(lexer).input@;
            let sc = spec_scan(s, old(lexer).cursor as int);
            let sp = match spec_obj_items(s, sc.end, false, Seq::empty(), true, Seq::empty()) {
                Ok((entries, p2, t2)) => spec_finish(s, p2, t2, *is_in, JsonVal::Object(entries)),
                Err(e) => Err(e),
            };
            match r {
                Ok(d) => sp == Ok::<(JsonVal, int, bool), ParseErrV>(
                    (view_json(d), final(lexer).cursor as int, final(lexer).exhausted),
                ),
                Err(e) => sp == Err::<(JsonVal, int, bool), ParseErrV>(e@),
            }
        }),
    decreases old(lexer).input@.len() - old(lexer).cursor, 0int,
{
    let ghost s = old(lexer).input@;
    let ghost p0 = old(lexer).cursor as int;
    let ghost sc = spec_scan(s, p0);
    proof {
        lemma_scan_bounds(s, p0);
    }
    let _t = lexer.next();
    let mut entries: Vec<(String, JsonData)> = Vec::new();
    let mut is_key: bool = true;
    let mut key: String = String::new();
    loop
        invariant_except_break
            lexer.wf(),
            s == old(lexer).input@,
            p0 == old(lexer).cursor as int,
            sc == spec_scan(s, p0),
            0 <= sc.end <= s.len(),
            lexer.input@ == s,
            p0 < lexer.cursor,
            spec_obj_items(s, sc.end, false, Seq::empty(), true, Seq::empty()) == spec_obj_items(
                s,
                lexer.cursor as int,
                lexer.exhausted,
                view_json_entries(entries@),
                is_key,
                key@,
            ),
        ensures
            lexer.wf(),
            lexer.input@ == s,
            p0 < lexer.cursor,
            spec_obj_items(s, sc.end, false, Seq::empty(), true, Seq::empty()) == Ok::<
                (Seq<(Seq<char>, JsonVal)>, int, bool),
                ParseErrV,
            >((view_json_entries(entries@), lexer.cursor as int, lexer.exhausted)),
        decreases s.len() - lexer.cursor, (if lexer.exhausted { 0int } else { 1int }),
    {
        let ghost pcur = lexer.cursor as int;
        match lexer.peek() {
            None => {
                break;
            },
            Some(token) => {
                proof {
                    lemma_scan_bounds(s, pcur);
                }
                if token.kind == TokenKind::CloseCurly {
                    let _t2 = lexer.next();
                    break;
                } else if token.kind == TokenKind::Comma {
                    if is_key {
                        return Err(ParseError::SyntaxError(token));
                    }
                    is_key = true;
                    let _t2 = lexer.next();
                } else if token.kind == TokenKind::Colon {
                    if !is_key {
                        return Err(ParseError::SyntaxError(token));
                    }
                    is_key = false;
                    let _t2 = lexer.next();
                } else if token.kind == TokenKind::Str && is_key {
                    proof {
                        crate::lexer::lemma_scan_str_shape(s, pcur);
                    }
                    let t2 = lexer.next().unwrap();
                    key = remove_surrounding_quotes(t2.text.as_str());
                } else {
                    if is_key {
                        return Err(ParseError::SyntaxError(token));
                    }
                    let elem = eat(lexer, &In::Object);
                    match elem {
                        Ok(e) => {
                            proof {
                                assert(spec_step(
                                    s,
                                    pcur,
                                    lexer.cursor as int,
                                    lexer.exhausted,
                                ) == (lexer.cursor as int, lexer.exhausted));
                            }
                            let k2 = key.clone();
                            obj_insert(&mut entries, k2, e);
                        },
                        Err(err) => {
                            return Err(err);
                        },
                    }
                }
            },
        }
    }
    is_next_valid(lexer, JsonData::Object(entries), is_in)
}

/// Parse one value in context `is_in` and validate what follows it; the
/// lookahead token decides which kind of value starts here.
fn eat(lexer: &mut Lexer, is_in: &In) -> (r: Result<JsonData, ParseError>)
    requires
        old(lexer).wf(),
    ensures
        final(lexer).wf(),
        final(lexer).input@ == old(lexer).input@,
        old(lexer).cursor <= final(lexer).cursor,
        ({
            let sp = spec_eat(
                old(lexer).input@,
                old(lexer).cursor as int,
                old(lexer).exhausted,
                *is_in,
            );
            match r {
                Ok(d) => sp == Ok::<(JsonVal, int, bool), ParseErrV>(
                    (view_json(d), final(lexer).cursor as int, final(lexer).exhausted),
                ),
                Err(e) => sp == Err::<(JsonVal, int, bool), ParseErrV>(e@),
            }
        }),
        r is Ok && !old(lexer).exhausted ==> old(lexer).cursor < final(lexer).cursor
            || final(lexer).exhausted,
    decreases old(lexer).input@.len() - old(lexer).cursor, 1int,
{
    proof {
        lemma_scan_bounds(old(lexer).input@, old(lexer).cursor as int);
    }
    match lexer.peek() {
        None => parse_json_eof(lexer, is_in),
        Some(token) => match token.kind {
            TokenKind::CloseBracket => Err(ParseError::SyntaxError(token)),
            TokenKind::Comma => Err(ParseError::SyntaxError(token)),
            TokenKind::Colon => Err(ParseError::SyntaxError(token)),
            TokenKind::CloseCurly => Err(ParseError::SyntaxError(token)),
            TokenKind::Invalid => Err(ParseError::SyntaxError(token)),
            TokenKind::OpenCurly => parse_json_object(lexer, is_in),
            TokenKind::OpenBracket => parse_json_array(lexer, is_in),
            TokenKind::Integer => parse_json_integer(lexer, is_in),
            TokenKind::Float => parse_json_float(lexer, is_in),
            TokenKind::Str => parse_json_str(lexer, is_in),
            TokenKind::Null => parse_json_null(lexer, is_in),
            TokenKind::True => parse_json_true(lexer, is_in),
            TokenKind::False => parse_json_false(lexer, is_in),
            TokenKind::Eof => parse_json_eof(lexer, is_in),
        },
    }
}

/// Parse a whole text into a document tree, or return the first error.
/// The result agrees exactly with the spec-level parser `spec_parse`.
pub fn parse_json(json: &str) -> (r: Result<JsonData, ParseError>)
    requires
        json@.len() < usize::MAX,
    ensures
        match r {
            Ok(d) => spec_parse(json@) == Ok::<JsonVal, ParseErrV>(view_json(d)),
            Err(e) => spec_parse(json@) == Err::<JsonVal, ParseErrV>(e@),
        },
{
    let mut lexer = Lexer::new(json);
    eat(&mut lexer, &In::Nothing)
}

} // verus!
