//! Canonical textual rendering of a document tree, and the two-line
//! diagnostic for parse errors.
//!
//! Rendering need not reproduce the source text (whitespace and ordering are
//! not preserved), but it is a pure function of the document, so rendering
//! twice yields identical text, and rendering a suitable document re-parses
//! to an equal tree.

use vstd::prelude::*;
use crate::lexer::{kw_null, kw_true, kw_false};
use crate::parser::{JsonData, JsonVal, ParseError, ParseErrV, view_json, view_json_list,
    view_json_entries, lemma_view_list_index, lemma_view_entries_index};
use crate::numbers::{spec_int_str, spec_udec, i64_to_digits, usize_to_digits};

verus! {

broadcast use {vstd::std_specs::vec::group_vec_axioms, vstd::seq::axiom_seq_index_decreases};

/// Canonical text of a document: keywords and numbers as their lexemes,
/// strings re-quoted, arrays as `[v, v]`, objects as `{` and `}` around one
/// line per entry.  The end-of-input document renders as empty text.
pub open spec fn spec_render(v: JsonVal) -> Seq<char>
    decreases v,
{
    match v {
        JsonVal::Eof => Seq::empty(),
        JsonVal::Null => kw_null(),
        JsonVal::Bool(b) => if b {
            kw_true()
        } else {
            kw_false()
        },
        JsonVal::Str(s) => seq!['"'] + s + seq!['"'],
        JsonVal::Float(t) => t,
        JsonVal::Integer(i) => spec_int_str(i),
        JsonVal::Array(items) => if items.len() == 0 {
            seq!['[', ']']
        } else {
            seq!['['] + spec_render_items(items) + seq![']']
        },
        JsonVal::Object(entries) => if entries.len() == 0 {
            seq!['{', '}']
        } else {
            seq!['{', '\n'] + spec_render_entries(entries) + seq!['\n', '}']
        },
    }
}

pub open spec fn spec_render_items(items: Seq<JsonVal>) -> Seq<char>
    decreases items,
{
    if items.len() == 0 {
        Seq::empty()
    } else if items.len() == 1 {
        spec_render(items[0])
    } else {
        spec_render(items[0]) + seq![',', ' '] + spec_render_items(items.drop_first())
    }
}

pub open spec fn spec_render_entry(e: (Seq<char>, JsonVal)) -> Seq<char>
    decreases e,
{
    seq!['"'] + e.0 + seq!['"', ' ', ':', ' '] + spec_render(e.1)
}

pub open spec fn spec_render_entries(entries: Seq<(Seq<char>, JsonVal)>) -> Seq<char>
    decreases entries,
{
    if entries.len() == 0 {
        Seq::empty()
    } else if entries.len() == 1 {
        spec_render_entry(entries[0])
    } else {
        spec_render_entry(entries[0]) + seq![',', '\n'] + spec_render_entries(entries.drop_first())
    }
}

/// The text rendered by the array loop before element `i`: each earlier
/// element followed by a comma separator.
pub open spec fn spec_items_pre(items: Seq<JsonVal>, i: int) -> Seq<char>
    decreases i,
{
    if i <= 0 {
        Seq::empty()
    } else {
        spec_items_pre(items, i - 1) + spec_render(items[i - 1]) + seq![',', ' ']
    }
}

pub open spec fn spec_entries_pre(entries: Seq<(Seq<char>, JsonVal)>, i: int) -> Seq<char>
    decreases i,
{
    if i <= 0 {
        Seq::empty()
    } else {
        spec_entries_pre(entries, i - 1) + spec_render_entry(entries[i - 1]) + seq![',', '\n']
    }
}

/// The loop prefix plus the remaining tail renders the whole item list.
pub proof fn lemma_items_pre(items: Seq<JsonVal>, k: int)
    requires
        0 <= k < items.len(),
    ensures
        spec_items_pre(items, k) + spec_render_items(items.skip(k)) == spec_render_items(items),
    decreases k,
{
    if k == 0 {
        assert(items.skip(0) =~= items);
        assert(spec_items_pre(items, 0) + spec_render_items(items) =~= spec_render_items(items));
    } else {
        lemma_items_pre(items, k - 1);
        let a = items.skip(k - 1);
        assert(a[0] == items[k - 1]);
        assert(a.drop_first() =~= items.skip(k));
        assert(a.len() == items.len() - k + 1 >= 2);
        assert(spec_render_items(a) == spec_render(items[k - 1]) + seq![',', ' ']
            + spec_render_items(items.skip(k)));
        assert((spec_items_pre(items, k - 1) + (spec_render(items[k - 1]) + seq![',', ' ']
            + spec_render_items(items.skip(k)))) =~= (spec_items_pre(items, k)
            + spec_render_items(items.skip(k))));
    }
}

pub proof fn lemma_entries_pre(entries: Seq<(Seq<char>, JsonVal)>, k: int)
    requires
        0 <= k < entries.len(),
    ensures
        spec_entries_pre(entries, k) + spec_render_entries(entries.skip(k)) == spec_render_entries(
            entries,
        ),
    decreases k,
{
    if k == 0 {
        assert(entries.skip(0) =~= entries);
        assert(spec_entries_pre(entries, 0) + spec_render_entries(entries) =~= spec_render_entries(
            entries,
        ));
    } else {
        lemma_entries_pre(entries, k - 1);
        let a = entries.skip(k - 1);
        assert(a[0] == entries[k - 1]);
        assert(a.drop_first() =~= entries.skip(k));
        assert(a.len() == entries.len() - k + 1 >= 2);
        assert(spec_render_entries(a) == spec_render_entry(entries[k - 1]) + seq![',', '\n']
            + spec_render_entries(entries.skip(k)));
        assert((spec_entries_pre(entries, k - 1) + (spec_render_entry(entries[k - 1]) + seq![
            ',',
            '\n',
        ] + spec_render_entries(entries.skip(k)))) =~= (spec_entries_pre(entries, k)
            + spec_render_entries(entries.skip(k))));
    }
}

fn push_str_chars(out: &mut Vec<char>, s: &str)
    ensures
        final(out)@ == old(out)@ + s@,
{
    let n = s.unicode_len();
    let mut i: usize = 0;
    proof {
        assert(out@ =~= old(out)@ + s@.take(0));
    }
    while i < n
        invariant
            i <= n,
            n == s@.len(),
            out@ == old(out)@ + s@.take(i as int),
        decreases n - i,
    {
        out.push(s.get_char(i));
        proof {
            assert(out@ =~= old(out)@ + s@.take(i + 1 as int));
        }
        i = i + 1;
    }
    proof {
        assert(s@.take(n as int) =~= s@);
    }
}

fn push_all(out: &mut Vec<char>, v: &Vec<char>)
    ensures
        final(out)@ == old(out)@ + v@,
{
    let n = v.len();
    let mut i: usize = 0;
    proof {
        assert(out@ =~= old(out)@ + v@.take(0));
    }
    while i < n
        invariant
            i <= n,
            n == v@.len(),
            out@ == old(out)@ + v@.take(i as int),
        decreases n - i,
    {
        out.push(v[i]);
        proof {
            assert(out@ =~= old(out)@ + v@.take(i + 1 as int));
        }
        i = i + 1;
    }
    proof {
        assert(v@.take(n as int) =~= v@);
    }
}

/// Repeat one character `n` times.
pub open spec fn char_repeat(c: char, n: int) -> Seq<char>
    decreases n,
{
    if n <= 0 {
        Seq::empty()
    } else {
        char_repeat(c, n - 1) + seq![c]
    }
}

fn push_repeat(out: &mut Vec<char>, c: char, n: usize)
    ensures
        final(out)@ == old(out)@ + char_repeat(c, n as int),
{
    let mut i: usize = 0;
    proof {
        assert(out@ =~= old(out)@ + char_repeat(c, 0));
    }
    while i < n
        invariant
            i <= n,
            out@ == old(out)@ + char_repeat(c, i as int),
        decreases n - i,
    {
        out.push(c);
        proof {
            assert(out@ =~= old(out)@ + char_repeat(c, i + 1 as int));
        }
        i = i + 1;
    }
}

impl JsonData {
    /// Append the canonical text of this subtree.
    #[verifier::rlimit(60)]
    fn render_into(&self, out: &mut Vec<char>)
        ensures
            final(out)@ == old(out)@ + spec_render(view_json(*self)),
        decreases self,
    {
        let ghost base = out@;
        match self {
            JsonData::Eof => {
                proof {
                    assert(out@ =~= base + Seq::<char>::empty());
                }
            },
            JsonData::Null => {
                out.push('n');
                out.push('u');
                out.push('l');
                out.push('l');
                proof {
                    assert(out@ =~= base + kw_null());
                }
            },
            JsonData::Bool(b) => {
                if *b {
                    out.push('t');
                    out.push('r');
                    out.push('u');
                    out.push('e');
                    proof {
                        assert(out@ =~= base + kw_true());
                    }
                } else {
                    out.push('f');
                    out.push('a');
                    out.push('l');
                    out.push('s');
                    out.push('e');
                    proof {
                        assert(out@ =~= base + kw_false());
                    }
                }
            },
            JsonData::Str(s) => {
                out.push('"');
                push_str_chars(out, s.as_str());
                out.push('"');
                proof {
                    assert(out@ =~= base + (seq!['"'] + s@ + seq!['"']));
                }
            },
            JsonData::Float(t) => {
                push_str_chars(out, t.as_str());
            },
            JsonData::Integer(i) => {
                let digits = i64_to_digits(*i);
                push_all(out, &digits);
            },
            JsonData::Array(v) => {
                let n = v.len();
                let ghost items = view_json_list(v@);
                proof {
                    lemma_view_list_index(v@);
                }
                if n == 0 {
                    out.push('[');
                    out.push(']');
                    proof {
                        assert(out@ =~= base + seq!['[', ']']);
                    }
                } else {
                    out.push('[');
                    let mut i: usize = 0;
                    proof {
                        assert(out@ =~= base + seq!['['] + spec_items_pre(items, 0));
                    }
                    #[verifier::loop_isolation(false)]
                    while i < n - 1
                        invariant
                            i <= n - 1,
                            n == v@.len(),
                            n >= 1,
                            items == view_json_list(v@),
                            items.len() == n,
                            forall|j: int| 0 <= j < n ==> #[trigger] items[j] == view_json(v@[j]),
                            out@ == base + seq!['['] + spec_items_pre(items, i as int),
                        decreases n - 1 - i,
                    {
                        proof {
                            assert(decreases_to!(*self => v[i as int]));
                        }
                        v[i].render_into(out);
                        out.push(',');
                        out.push(' ');
                        proof {
                            assert(out@ =~= base + seq!['['] + spec_items_pre(items, i + 1));
                        }
                        i = i + 1;
                    }
                    proof {
                        assert(decreases_to!(*self => v[n - 1]));
                    }
                    v[n - 1].render_into(out);
                    out.push(']');
                    proof {
                        lemma_items_pre(items, n - 1);
                        assert(items.skip(n - 1).len() == 1);
                        assert(items.skip(n - 1)[0] == items[n - 1]);
                        assert(spec_render_items(items.skip(n - 1)) == spec_render(items[n - 1]));
                        assert(out@ =~= base + (seq!['['] + spec_render_items(items) + seq![']']));
                    }
                }
            },
            JsonData::Object(v) => {
                let n = v.len();
                let ghost entries = view_json_entries(v@);
                proof {
                    lemma_view_entries_index(v@);
                }
                if n == 0 {
                    out.push('{');
                    out.push('}');
                    proof {
                        assert(out@ =~= base + seq!['{', '}']);
                    }
                } else {
                    out.push('{');
                    out.push('\n');
                    let mut i: usize = 0;
                    proof {
                        assert(out@ =~= base + seq!['{', '\n'] + spec_entries_pre(entries, 0));
                    }
                    #[verifier::loop_isolation(false)]
                    while i < n - 1
                        invariant
                            i <= n - 1,
                            n == v@.len(),
                            n >= 1,
                            entries == view_json_entries(v@),
                            entries.len() == n,
                            forall|j: int| 0 <= j < n ==> #[trigger] entries[j] == (
                                v@[j].0@,
                                view_json(v@[j].1),
                            ),
                            out@ == base + seq!['{', '\n'] + spec_entries_pre(entries, i as int),
                        decreases n - 1 - i,
                    {
                        proof {
                            assert(decreases_to!(*self => v[i as int].1));
                        }
                        out.push('"');
                        push_str_chars(out, v[i].0.as_str());
                        out.push('"');
                        out.push(' ');
                        out.push(':');
                        out.push(' ');
                        v[i].1.render_into(out);
                        out.push(',');
                        out.push('\n');
                        proof {
                            assert(out@ =~= base + seq!['{', '\n'] + spec_entries_pre(
                                entries,
                                i + 1,
                            ));
                        }
                        i = i + 1;
                    }
                    proof {
                        assert(decreases_to!(*self => v[n - 1].1));
                    }
                    out.push('"');
                    push_str_chars(out, v[n - 1].0.as_str());
                    out.push('"');
                    out.push(' ');
                    out.push(':');
                    out.push(' ');
                    v[n - 1].1.render_into(out);
                    out.push('\n');
                    out.push('}');
                    proof {
                        lemma_entries_pre(entries, n - 1);
                        assert(entries.skip(n - 1).len() == 1);
                        assert(entries.skip(n - 1)[0] == entries[n - 1]);
                        assert(spec_render_entries(entries.skip(n - 1)) == spec_render_entry(
                            entries[n - 1],
                        ));
                        assert(out@ =~= base + (seq!['{', '\n'] + spec_render_entries(entries)
                            + seq!['\n', '}']));
                    }
                }
            },
        }
    }

    /// Canonical text of this document.
    pub fn to_text(&self) -> (r: String)
        ensures
            r@ == spec_render(view_json(*self)),
    {
        let mut out: Vec<char> = Vec::new();
        self.render_into(&mut out);
        proof {
            assert(Seq::<char>::empty() + spec_render(view_json(*self)) =~= spec_render(
                view_json(*self),
            ));
        }
        crate::lexer::chars_to_string(&out)
    }
}

/// The diagnostic for a parse error: the fixed message, the offending lexeme,
/// its 1-based row and column, and an aligned caret line as long as the
/// lexeme.  The caret line is indented past the message and its opening
/// backtick, which are 21 characters wide.
pub open spec fn spec_error_text(e: ParseErrV) -> Seq<char> {
    match e {
        ParseErrV::UnexpectedEof => "Unexpected end of file"@,
        ParseErrV::Syntax(t) => "Invalid Json Syntax `"@ + t.text + "` at "@ + spec_udec(t.row)
            + seq![':'] + spec_udec(t.col) + seq!['\n'] + char_repeat(' ', 21) + char_repeat(
            '^',
            t.text.len() as int,
        ),
    }
}

impl ParseError {
    /// Render the two-line diagnostic for this error.
    pub fn to_message(&self) -> (r: String)
        ensures
            r@ == spec_error_text(self@),
    {
        match self {
            ParseError::UnexpectedEof => {
                let r = "Unexpected end of file".to_owned();
                r
            },
            ParseError::SyntaxError(t) => {
                let mut out: Vec<char> = Vec::new();
                push_str_chars(&mut out, "Invalid Json Syntax `");
                push_str_chars(&mut out, t.text.as_str());
                push_str_chars(&mut out, "` at ");
                let rows = usize_to_digits(t.loc.row);
                push_all(&mut out, &rows);
                out.push(':');
                let cols = usize_to_digits(t.loc.col);
                push_all(&mut out, &cols);
                out.push('\n');
                push_repeat(&mut out, ' ', 21);
                let cn = t.text.as_str().unicode_len();
                push_repeat(&mut out, '^', cn);
                proof {
                    assert(Seq::<char>::empty() + "Invalid Json Syntax `"@ =~= "Invalid Json Syntax `"@);
                    assert(out@ =~= spec_error_text(self@));
                }
                crate::lexer::chars_to_string(&out)
            },
        }
    }
}

} // verus!
