//! Decoded values and their mathematical model.

use vstd::prelude::*;
use vstd::std_specs::cmp::PartialEqSpec;
use vstd::std_specs::cmp::PartialEqSpecImpl;

verus! {

/// The mathematical content of a decoded value: byte strings are sequences
/// and an array is a sequence of contents.
pub enum Content {
    /// The text of a simple string.
    String(Seq<u8>),
    /// The text of an error.
    Error(Seq<u8>),
    /// The digits of an integer, as they were written.
    Integer(Seq<u8>),
    /// The payload of a bulk string.
    BulkString(Seq<u8>),
    /// No value. It differs from every bulk string, the empty one too.
    Nil,
    /// The contents of the items of an array, in order.
    Array(Seq<Content>),
}

/// A decoded value. Every byte string in it borrows from the buffer that
/// was decoded.
#[derive(Debug, Eq)]
pub enum RESP<'a> {
    /// A simple string: one line of text.
    String(&'a [u8]),
    /// An error: one line of text.
    Error(&'a [u8]),
    /// An integer: one line, whose digits are left for the caller to read.
    Integer(&'a [u8]),
    /// A bulk string: a payload of any bytes.
    BulkString(&'a [u8]),
    /// No value. It differs from every bulk string, the empty one too.
    Nil,
    /// An array: its items, in the order in which they were encoded.
    Array(Vec<RESP<'a>>),
}

impl<'a> View for RESP<'a> {
    type V = Content;

    /// The content of this value: the bytes that its slices hold.
    open spec fn view(&self) -> Content
        decreases self,
    {
        match self {
            RESP::String(bytes) => Content::String(bytes@),
            RESP::Error(bytes) => Content::Error(bytes@),
            RESP::Integer(bytes) => Content::Integer(bytes@),
            RESP::BulkString(bytes) => Content::BulkString(bytes@),
            RESP::Nil => Content::Nil,
            RESP::Array(items) => Content::Array(contents_of(items@)),
        }
    }
}

/// The contents of a run of values, in order.
pub open spec fn contents_of(items: Seq<RESP>) -> Seq<Content>
    decreases items,
{
    Seq::new(
        items.len(),
        |i: int|
            if 0 <= i < items.len() {
                items[i]@
            } else {
                Content::Nil
            },
    )
}

/// Whether two byte strings hold the same bytes.
pub fn same_bytes(left: &[u8], right: &[u8]) -> (same: bool)
    ensures
        same == (left@ == right@),
{
    if left.len() != right.len() {
        return false;
    }
    let mut index: usize = 0;
    while index < left.len()
        invariant
            left@.len() == right@.len(),
            index <= left@.len(),
            forall|j: int| 0 <= j < index ==> left@[j] == right@[j],
        decreases left@.len() - index,
    {
        if left[index] != right[index] {
            return false;
        }
        index += 1;
    }
    assert(left@ =~= right@);
    true
}

/// Whether two runs of values have the same contents, in the same order.
pub fn same_items<'a>(left: &Vec<RESP<'a>>, right: &Vec<RESP<'a>>) -> (same: bool)
    ensures
        same == (contents_of(left@) == contents_of(right@)),
    decreases left,
{
    if left.len() != right.len() {
        assert(contents_of(left@).len() != contents_of(right@).len());
        return false;
    }
    let mut index: usize = 0;
    while index < left.len()
        invariant
            left@.len() == right@.len(),
            index <= left@.len(),
            forall|j: int| 0 <= j < index ==> left@[j]@ == right@[j]@,
        decreases left@.len() - index,
    {
        if !left[index].eq(&right[index]) {
            assert(contents_of(left@)[index as int] != contents_of(right@)[index as int]);
            return false;
        }
        index += 1;
    }
    assert(contents_of(left@) =~= contents_of(right@));
    true
}

impl<'a> PartialEq for RESP<'a> {
    /// Two values are equal where they have the same content.
    fn eq(&self, other: &Self) -> (equal: bool)
        decreases self,
    {
        match (self, other) {
            (RESP::String(left), RESP::String(right)) => same_bytes(left, right),
            (RESP::Error(left), RESP::Error(right)) => same_bytes(left, right),
            (RESP::Integer(left), RESP::Integer(right)) => same_bytes(left, right),
            (RESP::BulkString(left), RESP::BulkString(right)) => same_bytes(left, right),
            (RESP::Nil, RESP::Nil) => true,
            (RESP::Array(left), RESP::Array(right)) => same_items(left, right),
            _ => false,
        }
    }
}

impl<'a> PartialEqSpecImpl for RESP<'a> {
    open spec fn obeys_eq_spec() -> bool {
        true
    }

    /// What `==` means: the same content, wherever the bytes lie.
    open spec fn eq_spec(&self, other: &Self) -> bool {
        self@ == other@
    }
}

/// Nil is no bulk string, not even the empty one: the two differ in
/// content, and `==` tells them apart.
pub proof fn lemma_nil_is_no_bulk_string(payload: &[u8])
    ensures
        Content::Nil != Content::BulkString(payload@),
        RESP::Nil@ != RESP::BulkString(payload)@,
        !PartialEqSpec::eq_spec(&RESP::Nil, &RESP::BulkString(payload)),
        !PartialEqSpec::eq_spec(&RESP::BulkString(payload), &RESP::Nil),
{
}

} // verus!
