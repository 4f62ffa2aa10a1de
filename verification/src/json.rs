//! Shape-tagged handles over a parsed document.
//!
//! A handle pairs a document subtree with a phantom shape tag: `Object`,
//! `Array` or `Value`.  Handles are created only through constructors that
//! check the tag against the actual variant, so a handle of a given shape
//! always wraps a node of that shape, and only the navigation operations
//! valid for the shape are exposed.  Navigation hands out fresh handles over
//! structural copies of subtrees; accessor failures never invalidate the
//! handle they were called on.

use vstd::prelude::*;
use crate::parser::{
    JsonData, JsonVal, ParseError, view_json, view_json_list, view_json_entries, parse_json,
    spec_parse, lemma_view_list_index, lemma_view_entries_index,
};
use crate::render::{spec_render, spec_error_text};

verus! {

broadcast use {vstd::std_specs::vec::group_vec_axioms, vstd::seq::axiom_seq_index_decreases};

/// A shape a handle may be tagged with, and the check that a document node
/// actually has that shape.
pub trait JsonState {
    spec fn shape_ok(v: JsonVal) -> bool;

    fn accepts(d: &JsonData) -> (r: bool)
        ensures
            r == Self::shape_ok(view_json(*d)),
    ;
}

#[derive(Debug)]
pub struct Array;

#[derive(Debug)]
pub struct Object;

#[derive(Debug)]
pub struct Value;

impl JsonState for Array {
    open spec fn shape_ok(v: JsonVal) -> bool {
        v is Array
    }

    fn accepts(d: &JsonData) -> (r: bool) {
        matches!(d, JsonData::Array(_))
    }
}

impl JsonState for Object {
    open spec fn shape_ok(v: JsonVal) -> bool {
        v is Object
    }

    fn accepts(d: &JsonData) -> (r: bool) {
        matches!(d, JsonData::Object(_))
    }
}

impl JsonState for Value {
    open spec fn shape_ok(v: JsonVal) -> bool {
        !(v is Array) && !(v is Object)
    }

    fn accepts(d: &JsonData) -> (r: bool) {
        !matches!(d, JsonData::Array(_)) && !matches!(d, JsonData::Object(_))
    }
}

#[derive(Debug, PartialEq)]
pub enum JsonError {
    IncorrectType,
    KeyNotFound,
    IndexNotFound,
    InvalidJsonSyntax(String),
    FileError(String),
}

/// A document subtree tagged with the shape `S` of its root node.  The
/// fields are private: a handle can only come from a constructor that has
/// checked the tag against the actual variant.
#[derive(Debug)]
pub struct Json<S: JsonState> {
    data: JsonData,
    marker: core::marker::PhantomData<S>,
}

impl<S: JsonState> View for Json<S> {
    type V = JsonVal;

    closed spec fn view(&self) -> JsonVal {
        view_json(self.data)
    }
}

/// The value under the first entry with this key, if any.
pub open spec fn spec_obj_lookup(entries: Seq<(Seq<char>, JsonVal)>, key: Seq<char>) -> Option<
    JsonVal,
>
    decreases entries.len(),
{
    if entries.len() == 0 {
        None
    } else if entries[0].0 == key {
        Some(entries[0].1)
    } else {
        spec_obj_lookup(entries.drop_first(), key)
    }
}

pub proof fn lemma_obj_lookup_absent(entries: Seq<(Seq<char>, JsonVal)>, key: Seq<char>)
    requires
        forall|i: int| 0 <= i < entries.len() ==> (#[trigger] entries[i]).0 != key,
    ensures
        spec_obj_lookup(entries, key) is None,
    decreases entries.len(),
{
    if entries.len() > 0 {
        assert(entries[0].0 != key);
        let rest = entries.drop_first();
        assert forall|i: int| 0 <= i < rest.len() implies (#[trigger] rest[i]).0 != key by {
            assert(rest[i] == entries[i + 1]);
        }
        lemma_obj_lookup_absent(rest, key);
    }
}

pub proof fn lemma_obj_lookup_found(entries: Seq<(Seq<char>, JsonVal)>, key: Seq<char>, j: int)
    requires
        0 <= j < entries.len(),
        entries[j].0 == key,
        forall|i: int| 0 <= i < j ==> (#[trigger] entries[i]).0 != key,
    ensures
        spec_obj_lookup(entries, key) == Some(entries[j].1),
    decreases entries.len(),
{
    if j > 0 {
        assert(entries[0].0 != key);
        let rest = entries.drop_first();
        assert(rest[j - 1] == entries[j]);
        assert forall|i: int| 0 <= i < j - 1 implies (#[trigger] rest[i]).0 != key by {
            assert(rest[i] == entries[i + 1]);
        }
        lemma_obj_lookup_found(rest, key, j - 1);
    }
}

/// Character-for-character equality of two text slices.
fn str_eq(a: &str, b: &str) -> (r: bool)
    ensures
        r == (a@ == b@),
{
    let n = a.unicode_len();
    if n != b.unicode_len() {
        return false;
    }
    let mut i: usize = 0;
    while i < n
        invariant
            i <= n,
            n == a@.len(),
            n == b@.len(),
            forall|j: int| 0 <= j < i ==> a@[j] == #[trigger] b@[j],
        decreases n - i,
    {
        if a.get_char(i) != b.get_char(i) {
            return false;
        }
        i = i + 1;
    }
    proof {
        assert(a@ =~= b@);
    }
    true
}

impl JsonData {
    /// Structural copy of a subtree.
    pub fn duplicate(&self) -> (r: JsonData)
        ensures
            view_json(r) == view_json(*self),
        decreases self,
    {
        match self {
            JsonData::Eof => JsonData::Eof,
            JsonData::Null => JsonData::Null,
            JsonData::Bool(b) => JsonData::Bool(*b),
            JsonData::Str(s) => JsonData::Str(s.clone()),
            JsonData::Float(t) => JsonData::Float(t.clone()),
            JsonData::Integer(i) => JsonData::Integer(*i),
            JsonData::Array(v) => {
                let mut nv: Vec<JsonData> = Vec::new();
                let n = v.len();
                let mut i: usize = 0;
                #[verifier::loop_isolation(false)]
                while i < n
                    invariant
                        i <= n,
                        nv@.len() == i,
                        forall|j: int| 0 <= j < i ==> view_json(#[trigger] nv@[j]) == view_json(
                            v@[j],
                        ),
                    decreases n - i,
                {
                    proof {
                        assert(decreases_to!(*self => v[i as int]));
                    }
                    let e = v[i].duplicate();
                    nv.push(e);
                    i = i + 1;
                }
                proof {
                    lemma_view_list_index(nv@);
                    lemma_view_list_index(v@);
                    assert(view_json_list(nv@) =~= view_json_list(v@));
                }
                JsonData::Array(nv)
            },
            JsonData::Object(v) => {
                let mut nv: Vec<(String, JsonData)> = Vec::new();
                let n = v.len();
                let mut i: usize = 0;
                #[verifier::loop_isolation(false)]
                while i < n
                    invariant
                        i <= n,
                        nv@.len() == i,
                        forall|j: int| 0 <= j < i ==> (#[trigger] nv@[j]).0@ == v@[j].0@
                            && view_json(nv@[j].1) == view_json(v@[j].1),
                    decreases n - i,
                {
                    proof {
                        assert(decreases_to!(*self => v[i as int].1));
                    }
                    let k = v[i].0.clone();
                    let e = v[i].1.duplicate();
                    nv.push((k, e));
                    i = i + 1;
                }
                proof {
                    lemma_view_entries_index(nv@);
                    lemma_view_entries_index(v@);
                    assert(view_json_entries(nv@) =~= view_json_entries(v@));
                }
                JsonData::Object(nv)
            },
        }
    }
}

impl<S: JsonState> Json<S> {
    /// The handle's tag matches the wrapped node.
    pub closed spec fn wf(&self) -> bool {
        S::shape_ok(view_json(self.data))
    }

    /// Parse text into a handle of shape `S`.  A syntax error is reported
    /// with its rendered diagnostic; a well-formed document whose root is not
    /// of shape `S` is rejected as `IncorrectType`.
    pub fn new(json: &str) -> (r: Result<Json<S>, JsonError>)
        requires
            json@.len() < usize::MAX,
        ensures
            match spec_parse(json@) {
                Ok(v) => if S::shape_ok(v) {
                    r matches Ok(h) && h@ == v && h.wf()
                } else {
                    r == Err::<Json<S>, JsonError>(JsonError::IncorrectType)
                },
                Err(pe) => r matches Err(e) && e matches JsonError::InvalidJsonSyntax(m) && m@
                    == spec_error_text(pe),
            },
    {
        match parse_json(json) {
            Ok(d) => {
                if S::accepts(&d) {
                    Ok(Json { data: d, marker: core::marker::PhantomData })
                } else {
                    Err(JsonError::IncorrectType)
                }
            },
            Err(e) => Err(JsonError::InvalidJsonSyntax(e.to_message())),
        }
    }

    /// Canonical text of the wrapped subtree.
    pub fn to_text(&self) -> (r: String)
        ensures
            r@ == spec_render(self@),
    {
        self.data.to_text()
    }
}

impl Json<Object> {
    /// Look `key` up and wrap the value as an object handle.
    pub fn get_object(&self, key: &str) -> (r: Result<Json<Object>, JsonError>)
        requires
            self.wf(),
        ensures
            match spec_obj_lookup(self@->Object_0, key@) {
                None => r == Err::<Json<Object>, JsonError>(JsonError::KeyNotFound),
                Some(v) => if v is Object {
                    r matches Ok(h) && h@ == v && h.wf()
                } else {
                    r == Err::<Json<Object>, JsonError>(JsonError::IncorrectType)
                },
            },
    {
        match self.obj_find(key) {
            Some(i) => {
                match &self.data {
                    JsonData::Object(entries) => {
                        if matches!(&entries[i].1, JsonData::Object(_)) {
                            Ok(Json { data: entries[i].1.duplicate(), marker: core::marker::PhantomData })
                        } else {
                            Err(JsonError::IncorrectType)
                        }
                    },
                    _ => Err(JsonError::IncorrectType),
                }
            },
            None => Err(JsonError::KeyNotFound),
        }
    }

    /// Look `key` up and wrap the value as an array handle.
    pub fn get_array(&self, key: &str) -> (r: Result<Json<Array>, JsonError>)
        requires
            self.wf(),
        ensures
            match spec_obj_lookup(self@->Object_0, key@) {
                None => r == Err::<Json<Array>, JsonError>(JsonError::KeyNotFound),
                Some(v) => if v is Array {
                    r matches Ok(h) && h@ == v && h.wf()
                } else {
                    r == Err::<Json<Array>, JsonError>(JsonError::IncorrectType)
                },
            },
    {
        match self.obj_find(key) {
            Some(i) => {
                match &self.data {
                    JsonData::Object(entries) => {
                        if matches!(&entries[i].1, JsonData::Array(_)) {
                            Ok(Json { data: entries[i].1.duplicate(), marker: core::marker::PhantomData })
                        } else {
                            Err(JsonError::IncorrectType)
                        }
                    },
                    _ => Err(JsonError::IncorrectType),
                }
            },
            None => Err(JsonError::KeyNotFound),
        }
    }

    /// Look `key` up and wrap the value as a plain-value handle.
    pub fn get_value(&self, key: &str) -> (r: Result<Json<Value>, JsonError>)
        requires
            self.wf(),
        ensures
            match spec_obj_lookup(self@->Object_0, key@) {
                None => r == Err::<Json<Value>, JsonError>(JsonError::KeyNotFound),
                Some(v) => if !(v is Array) && !(v is Object) {
                    r matches Ok(h) && h@ == v && h.wf()
                } else {
                    r == Err::<Json<Value>, JsonError>(JsonError::IncorrectType)
                },
            },
    {
        match self.obj_find(key) {
            Some(i) => {
                match &self.data {
                    JsonData::Object(entries) => {
                        if !matches!(&entries[i].1, JsonData::Array(_)) && !matches!(
                            &entries[i].1,
                            JsonData::Object(_),
                        ) {
                            Ok(Json { data: entries[i].1.duplicate(), marker: core::marker::PhantomData })
                        } else {
                            Err(JsonError::IncorrectType)
                        }
                    },
                    _ => Err(JsonError::IncorrectType),
                }
            },
            None => Err(JsonError::KeyNotFound),
        }
    }

    /// Index of the first entry under `key`, with the lookup's outcome.
    fn obj_find(&self, key: &str) -> (r: Option<usize>)
        requires
            self.wf(),
        ensures
            ({
                let entries = self@->Object_0;
                match r {
                    Some(i) => i < entries.len() && spec_obj_lookup(entries, key@) == Some(
                        entries[i as int].1,
                    ) && (self.data matches JsonData::Object(es) && i < es@.len()
                        && view_json(es@[i as int].1) == entries[i as int].1),
                    None => spec_obj_lookup(entries, key@) is None,
                }
            }),
    {
        match &self.data {
            JsonData::Object(es) => {
                proof {
                    lemma_view_entries_index(es@);
                }
                let n = es.len();
                let mut i: usize = 0;
                #[verifier::loop_isolation(false)]
                while i < n
                    invariant
                        i <= n,
                        forall|j: int| 0 <= j < i ==> (#[trigger] es@[j]).0@ != key@,
                    decreases n - i,
                {
                    if str_eq(es[i].0.as_str(), key) {
                        proof {
                            let ev = view_json_entries(es@);
                            assert forall|j: int| 0 <= j < i implies (#[trigger] ev[j]).0 != key@ by {
                                assert(ev[j] == (es@[j].0@, view_json(es@[j].1)));
                            }
                            assert(ev[i as int].0 == key@);
                            lemma_obj_lookup_found(ev, key@, i as int);
                        }
                        return Some(i);
                    }
                    i = i + 1;
                }
                proof {
                    let ev = view_json_entries(es@);
                    assert forall|j: int| 0 <= j < ev.len() implies (#[trigger] ev[j]).0 != key@ by {
                        assert(ev[j] == (es@[j].0@, view_json(es@[j].1)));
                    }
                    lemma_obj_lookup_absent(ev, key@);
                }
                None
            },
            _ => None,
        }
    }
}

impl Json<Array> {
    /// Whether the array has no elements; always succeeds on an array handle.
    pub fn is_empty(&self) -> (r: Result<bool, JsonError>)
        requires
            self.wf(),
        ensures
            r == Ok::<bool, JsonError>(self@->Array_0.len() == 0),
    {
        match &self.data {
            JsonData::Array(v) => {
                proof {
                    lemma_view_list_index(v@);
                }
                Ok(v.len() == 0)
            },
            _ => Err(JsonError::IncorrectType),
        }
    }

    /// The number of elements; always succeeds on an array handle.
    pub fn len(&self) -> (r: Result<usize, JsonError>)
        requires
            self.wf(),
        ensures
            r matches Ok(n) && n == self@->Array_0.len(),
    {
        match &self.data {
            JsonData::Array(v) => {
                proof {
                    lemma_view_list_index(v@);
                }
                Ok(v.len())
            },
            _ => Err(JsonError::IncorrectType),
        }
    }

    /// Wrap the element at `index` as an object handle.
    pub fn get_object(&self, index: usize) -> (r: Result<Json<Object>, JsonError>)
        requires
            self.wf(),
        ensures
            ({
                let items = self@->Array_0;
                if index < items.len() {
                    if items[index as int] is Object {
                        r matches Ok(h) && h@ == items[index as int] && h.wf()
                    } else {
                        r == Err::<Json<Object>, JsonError>(JsonError::IncorrectType)
                    }
                } else {
                    r == Err::<Json<Object>, JsonError>(JsonError::IndexNotFound)
                }
            }),
    {
        match &self.data {
            JsonData::Array(v) => {
                proof {
                    lemma_view_list_index(v@);
                }
                if index < v.len() {
                    if matches!(&v[index], JsonData::Object(_)) {
                        Ok(Json { data: v[index].duplicate(), marker: core::marker::PhantomData })
                    } else {
                        Err(JsonError::IncorrectType)
                    }
                } else {
                    Err(JsonError::IndexNotFound)
                }
            },
            _ => Err(JsonError::IncorrectType),
        }
    }

    /// Wrap the element at `index` as an array handle.
    pub fn get_array(&self, index: usize) -> (r: Result<Json<Array>, JsonError>)
        requires
            self.wf(),
        ensures
            ({
                let items = self@->Array_0;
                if index < items.len() {
                    if items[index as int] is Array {
                        r matches Ok(h) && h@ == items[index as int] && h.wf()
                    } else {
                        r == Err::<Json<Array>, JsonError>(JsonError::IncorrectType)
                    }
                } else {
                    r == Err::<Json<Array>, JsonError>(JsonError::IndexNotFound)
                }
            }),
    {
        match &self.data {
            JsonData::Array(v) => {
                proof {
                    lemma_view_list_index(v@);
                }
                if index < v.len() {
                    if matches!(&v[index], JsonData::Array(_)) {
                        Ok(Json { data: v[index].duplicate(), marker: core::marker::PhantomData })
                    } else {
                        Err(JsonError::IncorrectType)
                    }
                } else {
                    Err(JsonError::IndexNotFound)
                }
            },
            _ => Err(JsonError::IncorrectType),
        }
    }

    /// Wrap the element at `index` as a plain-value handle.
    pub fn get_value(&self, index: usize) -> (r: Result<Json<Value>, JsonError>)
        requires
            self.wf(),
        ensures
            ({
                let items = self@->Array_0;
                if index < items.len() {
                    if !(items[index as int] is Array) && !(items[index as int] is Object) {
                        r matches Ok(h) && h@ == items[index as int] && h.wf()
                    } else {
                        r == Err::<Json<Value>, JsonError>(JsonError::IncorrectType)
                    }
                } else {
                    r == Err::<Json<Value>, JsonError>(JsonError::IndexNotFound)
                }
            }),
    {
        match &self.data {
            JsonData::Array(v) => {
                proof {
                    lemma_view_list_index(v@);
                }
                if index < v.len() {
                    if !matches!(&v[index], JsonData::Array(_)) && !matches!(
                        &v[index],
                        JsonData::Object(_),
                    ) {
                        Ok(Json { data: v[index].duplicate(), marker: core::marker::PhantomData })
                    } else {
                        Err(JsonError::IncorrectType)
                    }
                } else {
                    Err(JsonError::IndexNotFound)
                }
            },
            _ => Err(JsonError::IncorrectType),
        }
    }
}

impl Json<Value> {
    /// Whether the wrapped value is the null document.
    pub fn is_null(&self) -> (r: bool)
        ensures
            r == (self@ is Null),
    {
        matches!(&self.data, JsonData::Null)
    }

    /// Whether the wrapped value is the end-of-input document, the result of
    /// parsing empty text.
    pub fn is_eof(&self) -> (r: bool)
        ensures
            r == (self@ is Eof),
    {
        matches!(&self.data, JsonData::Eof)
    }

    pub fn get_bool(&self) -> (r: Result<bool, JsonError>)
        ensures
            match self@ {
                JsonVal::Bool(b) => r == Ok::<bool, JsonError>(b),
                _ => r == Err::<bool, JsonError>(JsonError::IncorrectType),
            },
    {
        match &self.data {
            JsonData::Bool(b) => Ok(*b),
            _ => Err(JsonError::IncorrectType),
        }
    }

    pub fn get_string(&self) -> (r: Result<&String, JsonError>)
        ensures
            match r {
                Ok(s) => self@ is Str && s@ == self@->Str_0,
                Err(e) => !(self@ is Str) && e == JsonError::IncorrectType,
            },
    {
        match &self.data {
            JsonData::Str(s) => Ok(s),
            _ => Err(JsonError::IncorrectType),
        }
    }

    pub fn get_i64(&self) -> (r: Result<i64, JsonError>)
        ensures
            match self@ {
                JsonVal::Integer(i) => r matches Ok(n) && n as int == i,
                _ => r == Err::<i64, JsonError>(JsonError::IncorrectType),
            },
    {
        match &self.data {
            JsonData::Integer(i) => Ok(*i),
            _ => Err(JsonError::IncorrectType),
        }
    }

    /// The exact numeric lexeme of a floating-point value.  Converting the
    /// lexeme to a machine float is left to the caller, outside the verified
    /// core.
    pub fn get_float_text(&self) -> (r: Result<&String, JsonError>)
        ensures
            match r {
                Ok(t) => self@ is Float && t@ == self@->Float_0,
                Err(e) => !(self@ is Float) && e == JsonError::IncorrectType,
            },
    {
        match &self.data {
            JsonData::Float(t) => Ok(t),
            _ => Err(JsonError::IncorrectType),
        }
    }
}

} // verus!
