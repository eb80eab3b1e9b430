//! The two value kinds and the key-and-row record that every layer exchanges.

use vstd::prelude::*;
use vstd::utf8::encode_utf8;
use vstd::utf8::valid_utf8;
use vstd::utf8::is_ascii_chars;
use vstd::utf8::is_ascii_chars_encode_utf8;
use vstd::utf8::encode_utf8_valid_utf8;
use vstd::std_specs::cmp::PartialEqSpecImpl;
use crate::bytes::be32;
use crate::bytes::bytes_lt;
use crate::bytes::bytes_less;
use crate::bytes::bytes_equal;

verus! {

/// A stored value: a 32-bit number, or a text with its byte length in front.
#[derive(Debug)]
pub enum Value {
    Number(u32),
    String(u8, String),
}

/// What a [`Value`] holds: the number, or the length tag and the text's bytes.
pub enum ValueView {
    Number(u32),
    String(u8, Seq<u8>),
}

/// The text that stands for "above every key" in a page of text keys.
pub open spec fn text_ceiling() -> Seq<u8> {
    seq![122u8, 122u8, 122u8, 122u8, 122u8, 122u8, 122u8, 122u8]
}

impl ValueView {
    /// A text carries its true byte length, at most 255, and is UTF-8.
    pub open spec fn wf(self) -> bool {
        match self {
            ValueView::Number(_) => true,
            ValueView::String(len, text) => len == text.len() && valid_utf8(text),
        }
    }

    pub open spec fn is_text(self) -> bool {
        self is String
    }

    /// Bytes that the value takes in a page or a row: 4, or 1 and the length tag.
    pub open spec fn stored_len(self) -> int {
        match self {
            ValueView::Number(_) => 4,
            ValueView::String(len, _) => len + 1,
        }
    }

    /// The value as stored: big-endian number, or length tag and text.
    pub open spec fn stored(self) -> Seq<u8> {
        match self {
            ValueView::Number(x) => be32(x),
            ValueView::String(len, text) => seq![len] + text,
        }
    }

    /// The order of keys. Numbers come before texts; numbers go by size; texts by
    /// length tag first and then byte by byte.
    pub open spec fn lt(self, other: ValueView) -> bool {
        match (self, other) {
            (ValueView::Number(x), ValueView::Number(y)) => x < y,
            (ValueView::Number(_), ValueView::String(_, _)) => true,
            (ValueView::String(_, _), ValueView::Number(_)) => false,
            (ValueView::String(l1, t1), ValueView::String(l2, t2)) => l1 < l2 || (l1 == l2
                && bytes_lt(t1, t2)),
        }
    }

    /// The routing key that stands for "no upper bound" among keys of this kind.
    pub open spec fn ceiling(self) -> ValueView {
        match self {
            ValueView::Number(_) => ValueView::Number(u32::MAX),
            ValueView::String(_, _) => ValueView::String(8, text_ceiling()),
        }
    }

    /// Whether the value reads as the "no upper bound" key of its kind.
    pub open spec fn is_ceiling(self) -> bool {
        match self {
            ValueView::Number(x) => x == u32::MAX,
            ValueView::String(_, text) => text == text_ceiling(),
        }
    }
}

impl View for Value {
    type V = ValueView;

    open spec fn view(&self) -> ValueView {
        match self {
            Value::Number(x) => ValueView::Number(*x),
            Value::String(len, text) => ValueView::String(*len, encode_utf8(text@)),
        }
    }
}

/// The views of a sequence of values, in order.
pub open spec fn values_view(values: Seq<Value>) -> Seq<ValueView> {
    values.map_values(|v: Value| v@)
}

/// Bytes that a row of values takes when stored one after another.
pub open spec fn row_len(values: Seq<ValueView>) -> int
    decreases values.len(),
{
    if values.len() == 0 {
        0
    } else {
        row_len(values.drop_last()) + values.last().stored_len()
    }
}

/// A row of values stored one after another.
pub open spec fn row_stored(values: Seq<ValueView>) -> Seq<u8>
    decreases values.len(),
{
    if values.len() == 0 {
        Seq::empty()
    } else {
        row_stored(values.drop_last()) + values.last().stored()
    }
}

/// Every value of the row is well formed.
pub open spec fn row_wf(values: Seq<ValueView>) -> bool {
    forall|i: int| 0 <= i < values.len() ==> (#[trigger] values[i]).wf()
}

pub proof fn lemma_stored_len(v: ValueView)
    requires
        v.wf(),
    ensures
        v.stored().len() == v.stored_len(),
        1 <= v.stored_len() <= 256,
{
}

pub proof fn lemma_row_stored_len(values: Seq<ValueView>)
    requires
        row_wf(values),
    ensures
        row_stored(values).len() == row_len(values),
        values.len() <= row_len(values) <= 256 * values.len(),
    decreases values.len(),
{
    if values.len() > 0 {
        lemma_row_stored_len(values.drop_last());
        lemma_stored_len(values.last());
    }
}

pub proof fn lemma_row_push(values: Seq<ValueView>, v: ValueView)
    ensures
        row_len(values.push(v)) == row_len(values) + v.stored_len(),
        row_stored(values.push(v)) == row_stored(values) + v.stored(),
{
    assert(values.push(v).drop_last() =~= values);
}

/// The bytes of the text "zzzzzzzz".
pub proof fn lemma_ceiling_text()
    ensures
        encode_utf8("zzzzzzzz"@) == text_ceiling(),
{
    reveal_strlit("zzzzzzzz");
    let chars = "zzzzzzzz"@;
    assert(is_ascii_chars(chars));
    is_ascii_chars_encode_utf8(chars);
    assert(encode_utf8(chars) =~= text_ceiling());
}

impl Clone for Value {
    fn clone(&self) -> (copy: Value)
        ensures
            copy == *self,
    {
        match self {
            Value::Number(x) => Value::Number(*x),
            Value::String(len, text) => Value::String(*len, text.clone()),
        }
    }
}

impl PartialEq for Value {
    fn eq(&self, other: &Value) -> (same: bool) {
        match (self, other) {
            (Value::Number(x), Value::Number(y)) => *x == *y,
            (Value::String(l1, t1), Value::String(l2, t2)) => {
                *l1 == *l2 && bytes_equal(t1.as_str().as_bytes(), t2.as_str().as_bytes())
            },
            _ => false,
        }
    }
}

impl PartialEqSpecImpl for Value {
    open spec fn obeys_eq_spec() -> bool {
        true
    }

    open spec fn eq_spec(&self, other: &Value) -> bool {
        self@ == other@
    }
}

impl Value {
    /// A text value, tagged with its length in bytes.
    pub fn string(str: String) -> (value: Value)
        requires
            encode_utf8(str@).len() <= 255,
        ensures
            value@ == ValueView::String(encode_utf8(str@).len() as u8, encode_utf8(str@)),
            value@.wf(),
    {
        let len: usize = str.as_str().as_bytes().len();
        proof {
            encode_utf8_valid_utf8(str@);
        }
        Value::String(len as u8, str)
    }

    /// The page id that a routing cell holds.
    pub fn extract_pointer(&self) -> (id: u32)
        requires
            self is Number,
        ensures
            self@ == ValueView::Number(id),
    {
        match self {
            Value::Number(x) => *x,
            Value::String(_, _) => 0,
        }
    }

    /// The page id that a routing cell holds, if the value is a number.
    pub fn pointer(&self) -> (id: Option<u32>)
        ensures
            id == (match self@ {
                ValueView::Number(x) => Some(x),
                ValueView::String(_, _) => None::<u32>,
            }),
    {
        match self {
            Value::Number(x) => Some(*x),
            Value::String(_, _) => None,
        }
    }

    /// Whether a text's length tag is its true length.
    pub fn is_wf(&self) -> (ok: bool)
        ensures
            ok == self@.wf(),
    {
        match self {
            Value::Number(_) => true,
            Value::String(len, text) => {
                proof {
                    encode_utf8_valid_utf8(text@);
                }
                text.as_str().as_bytes().len() == *len as usize
            },
        }
    }

    pub fn is_text(&self) -> (text: bool)
        ensures
            text == self@.is_text(),
    {
        match self {
            Value::Number(_) => false,
            Value::String(_, _) => true,
        }
    }

    /// Whether `self` sorts strictly before `other`.
    pub fn lt(&self, other: &Value) -> (less: bool)
        ensures
            less == self@.lt(other@),
    {
        match (self, other) {
            (Value::Number(x), Value::Number(y)) => *x < *y,
            (Value::Number(_), Value::String(_, _)) => true,
            (Value::String(_, _), Value::Number(_)) => false,
            (Value::String(l1, t1), Value::String(l2, t2)) => {
                *l1 < *l2 || (*l1 == *l2 && bytes_less(
                    t1.as_str().as_bytes(),
                    t2.as_str().as_bytes(),
                ))
            },
        }
    }

    /// Bytes that the value takes when stored.
    pub fn stored_len(&self) -> (n: usize)
        ensures
            n == self@.stored_len(),
    {
        match self {
            Value::Number(_) => 4,
            Value::String(len, _) => *len as usize + 1,
        }
    }

    /// The "no upper bound" routing key of the same kind as `self`.
    pub fn ceiling(&self) -> (top: Value)
        ensures
            top@ == self@.ceiling(),
            top@.wf(),
    {
        match self {
            Value::Number(_) => Value::Number(u32::MAX),
            Value::String(_, _) => {
                proof {
                    lemma_ceiling_text();
                    encode_utf8_valid_utf8("zzzzzzzz"@);
                }
                Value::String(8, "zzzzzzzz".to_owned())
            },
        }
    }

    /// Whether `self` reads as the "no upper bound" routing key of its kind.
    pub fn is_ceiling(&self) -> (top: bool)
        ensures
            top == self@.is_ceiling(),
    {
        match self {
            Value::Number(x) => *x == u32::MAX,
            Value::String(_, text) => {
                proof {
                    lemma_ceiling_text();
                }
                bytes_equal(text.as_str().as_bytes(), "zzzzzzzz".as_bytes())
            },
        }
    }
}

/// A key with the row stored under it, one value per column.
#[derive(Debug)]
pub struct KeyRow {
    pub key: Value,
    pub row: Vec<Value>,
}

/// What a [`KeyRow`] holds.
pub struct KeyRowView {
    pub key: ValueView,
    pub row: Seq<ValueView>,
}

impl View for KeyRow {
    type V = KeyRowView;

    open spec fn view(&self) -> KeyRowView {
        KeyRowView { key: self.key@, row: values_view(self.row@) }
    }
}

/// The views of a sequence of records, in order.
pub open spec fn keyrows_view(entries: Seq<KeyRow>) -> Seq<KeyRowView> {
    entries.map_values(|e: KeyRow| e@)
}

/// A copy of `values`.
pub fn clone_values(values: &Vec<Value>) -> (copy: Vec<Value>)
    ensures
        copy@ == values@,
{
    let mut copy: Vec<Value> = Vec::new();
    let mut i: usize = 0;
    while i < values.len()
        invariant
            i <= values.len(),
            copy@ == values@.subrange(0, i as int),
        decreases values.len() - i,
    {
        copy.push(values[i].clone());
        assert(values@.subrange(0, i + 1) =~= values@.subrange(0, i as int).push(values@[i as int]));
        i += 1;
    }
    assert(values@ =~= values@.subrange(0, values@.len() as int));
    copy
}

impl Clone for KeyRow {
    fn clone(&self) -> (copy: KeyRow)
        ensures
            copy.key == self.key,
            copy.row@ == self.row@,
            copy@ == self@,
    {
        KeyRow { key: self.key.clone(), row: clone_values(&self.row) }
    }
}

} // verus!
