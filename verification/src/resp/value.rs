//! RESP values.
use vstd::prelude::*;

verus! {

/// A RESP2 value.
#[derive(Debug, PartialEq)]
pub enum RespValue {
    SimpleString(String),
    Error(String),
    Integer(i64),
    BulkString(Vec<u8>),
    Null,
    Array(Vec<RespValue>),
}

/// The mathematical content of a RESP2 value.
pub enum RespView {
    SimpleString(Seq<char>),
    Error(Seq<char>),
    Integer(int),
    BulkString(Seq<u8>),
    Null,
    Array(Seq<RespView>),
}

impl View for RespValue {
    type V = RespView;

    open spec fn view(&self) -> RespView
        decreases self,
    {
        match self {
            RespValue::SimpleString(s) => RespView::SimpleString(s@),
            RespValue::Error(s) => RespView::Error(s@),
            RespValue::Integer(n) => RespView::Integer(*n as int),
            RespValue::BulkString(d) => RespView::BulkString(d@),
            RespValue::Null => RespView::Null,
            RespValue::Array(items) => RespView::Array(
                Seq::new(items@.len(), |i: int| if 0 <= i < items@.len() { items@[i].view() } else { RespView::Null }),
            ),
        }
    }
}

impl Clone for RespValue {
    fn clone(&self) -> (copy: Self)
        ensures
            copy@ == self@,
        decreases self,
    {
        match self {
            RespValue::SimpleString(s) => RespValue::SimpleString(s.clone()),
            RespValue::Error(s) => RespValue::Error(s.clone()),
            RespValue::Integer(n) => RespValue::Integer(*n),
            RespValue::BulkString(d) => RespValue::BulkString(d.clone()),
            RespValue::Null => RespValue::Null,
            RespValue::Array(items) => {
                let mut copies: Vec<RespValue> = Vec::new();
                let mut i: usize = 0;
                while i < items.len()
                    invariant
                        self == RespValue::Array(*items),
                        i <= items.len(),
                        copies.len() == i,
                        forall|j: int| 0 <= j < i ==> (#[trigger] copies@[j])@ == items@[j]@,
                    decreases items.len() - i,
                {
                    assert(decreases_to!(self => self->Array_0@[i as int]));
                    copies.push(items[i].clone());
                    i += 1;
                }
                let copy = RespValue::Array(copies);
                assert(copy@->Array_0 =~= self@->Array_0);
                copy
            },
        }
    }
}

/// A value is known by its sort and what it holds.
pub proof fn lemma_value_view(text: String, n: i64, data: Vec<u8>, items: Vec<RespValue>, i: int)
    ensures
        RespValue::SimpleString(text)@ == RespView::SimpleString(text@),
        RespValue::Error(text)@ == RespView::Error(text@),
        RespValue::Integer(n)@ == RespView::Integer(n as int),
        RespValue::BulkString(data)@ == RespView::BulkString(data@),
        RespValue::Null@ == RespView::Null,
        RespValue::Array(items)@ is Array,
        RespValue::Array(items)@->Array_0.len() == items@.len(),
        0 <= i < items@.len() ==> RespValue::Array(items)@->Array_0[i] == items@[i]@,
{
    reveal_with_fuel(<RespValue as View>::view, 2);
}

} // verus!
