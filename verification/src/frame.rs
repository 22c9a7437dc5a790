//! Protocol values and their mathematical model.

use vstd::prelude::*;

verus! {

/// The mathematical model of a protocol value: text is a sequence of
/// characters, an array is a sequence of models.
pub enum FrameView {
    SimpleString(Seq<char>),
    Error(Seq<char>),
    Integer(i64),
    BulkString(Option<Seq<char>>),
    Array(Seq<FrameView>),
}

/// One protocol value, as it is decoded from or encoded onto the wire.
#[derive(Debug, PartialEq, Eq)]
pub enum Frame {
    /// A short acknowledgement.
    SimpleString(String),
    /// An error message.
    Error(String),
    /// A signed 64-bit number.
    Integer(i64),
    /// A length-prefixed string; `None` is the null reply, which differs
    /// from the empty string.
    BulkString(Option<String>),
    /// Zero or more nested values, in order.
    Array(Vec<Frame>),
}

/// The models of a sequence of values, item by item.
pub open spec fn views(items: Seq<Frame>) -> Seq<FrameView>
    decreases items,
{
    if items.len() == 0 {
        Seq::empty()
    } else {
        views(items.drop_last()).push(items.last().view())
    }
}

impl View for Frame {
    type V = FrameView;

    open spec fn view(&self) -> FrameView
        decreases self,
    {
        match self {
            Frame::SimpleString(s) => FrameView::SimpleString(s@),
            Frame::Error(s) => FrameView::Error(s@),
            Frame::Integer(i) => FrameView::Integer(*i),
            Frame::BulkString(None) => FrameView::BulkString(None),
            Frame::BulkString(Some(s)) => FrameView::BulkString(Some(s@)),
            Frame::Array(items) => FrameView::Array(views(items@)),
        }
    }
}

/// `views` keeps the length and works item by item.
pub proof fn lemma_views(items: Seq<Frame>)
    ensures
        views(items).len() == items.len(),
        forall|i: int| 0 <= i < items.len() ==> (#[trigger] views(items)[i]) == items[i]@,
    decreases items.len(),
{
    if items.len() > 0 {
        lemma_views(items.drop_last());
        assert(views(items) == views(items.drop_last()).push(items.last().view()));
    } else {
        assert(views(items) == Seq::<FrameView>::empty());
    }
}

impl Clone for Frame {
    fn clone(&self) -> (copy: Frame)
        ensures
            copy@ == self@,
        decreases self,
    {
        match self {
            Frame::SimpleString(s) => Frame::SimpleString(s.clone()),
            Frame::Error(s) => Frame::Error(s.clone()),
            Frame::Integer(i) => Frame::Integer(*i),
            Frame::BulkString(None) => Frame::BulkString(None),
            Frame::BulkString(Some(s)) => Frame::BulkString(Some(s.clone())),
            Frame::Array(items) => {
                let mut copies: Vec<Frame> = Vec::new();
                let mut i: usize = 0;
                while i < items.len()
                    invariant
                        *self == Frame::Array(*items),
                        i <= items.len(),
                        copies.len() == i,
                        forall|j: int| 0 <= j < i ==> copies@[j]@ == items@[j]@,
                    decreases items.len() - i,
                {
                    proof {
                        assert(decreases_to!(*self => self->Array_0));
                        assert(decreases_to!(*items => items[i as int]));
                    }
                    copies.push(items[i].clone());
                    i += 1;
                }
                proof {
                    lemma_views(copies@);
                    lemma_views(items@);
                    assert(views(copies@) =~= views(items@));
                }
                Frame::Array(copies)
            },
        }
    }
}

} // verus!
