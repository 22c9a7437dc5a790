//! Encoding: from a protocol value to its bytes on the wire.

use crate::frame::{lemma_views, views, Frame, FrameView};
use crate::line::{crlf, CR, LF};
use crate::number::{decimal, push_decimal, push_digits, MINUS, PLUS};
use crate::parser::{COLON, DOLLAR, STAR};
use vstd::prelude::*;
use vstd::utf8::*;

verus! {

/// The bytes of the null bulk string, before its terminator.
pub open spec fn null_length() -> Seq<u8> {
    seq![DOLLAR, MINUS, 0x31u8]
}

/// The bytes that a value is written as.
pub open spec fn encode(v: FrameView) -> Seq<u8>
    decreases v,
{
    match v {
        FrameView::SimpleString(text) => seq![PLUS] + encode_utf8(text) + crlf(),
        FrameView::Error(text) => seq![MINUS] + encode_utf8(text) + crlf(),
        FrameView::Integer(n) => seq![COLON] + decimal(n as int) + crlf(),
        FrameView::BulkString(Some(text)) => seq![DOLLAR] + decimal(
            encode_utf8(text).len() as int,
        ) + crlf() + encode_utf8(text) + crlf(),
        FrameView::BulkString(None) => null_length() + crlf(),
        FrameView::Array(values) => seq![STAR] + decimal(values.len() as int) + crlf()
            + encode_all(values),
    }
}

/// The bytes of several values, one after another.
pub open spec fn encode_all(values: Seq<FrameView>) -> Seq<u8>
    decreases values,
{
    if values.len() == 0 {
        Seq::empty()
    } else {
        encode(values.first()) + encode_all(values.drop_first())
    }
}

/// The bytes of one more value come after those of the values before it.
pub proof fn lemma_encode_all_push(values: Seq<FrameView>, last: FrameView)
    ensures
        encode_all(values.push(last)) == encode_all(values) + encode(last),
    decreases values.len(),
{
    let all = values.push(last);
    if values.len() == 0 {
        assert(all.drop_first() =~= Seq::<FrameView>::empty());
        assert(encode_all(all) == encode(all.first()) + encode_all(all.drop_first()));
        assert(encode_all(all.drop_first()) =~= Seq::<u8>::empty());
        assert(encode_all(all) =~= encode_all(values) + encode(last));
    } else {
        lemma_encode_all_push(values.drop_first(), last);
        assert(all.drop_first() =~= values.drop_first().push(last));
        assert(encode_all(all) == encode(all.first()) + encode_all(all.drop_first()));
        assert(encode_all(values) == encode(values.first()) + encode_all(values.drop_first()));
        assert(encode_all(all) =~= encode_all(values) + encode(last));
    }
}

/// Appends `bytes` to `out`.
fn push_all(out: &mut Vec<u8>, bytes: &[u8])
    ensures
        final(out)@ == old(out)@ + bytes@,
{
    let mut i: usize = 0;
    while i < bytes.len()
        invariant
            i <= bytes.len(),
            out@ == old(out)@ + bytes@.take(i as int),
        decreases bytes.len() - i,
    {
        out.push(bytes[i]);
        i += 1;
        assert(out@ =~= old(out)@ + bytes@.take(i as int));
    }
    assert(bytes@.take(bytes.len() as int) =~= bytes@);
}

/// Appends a line terminator to `out`.
fn push_crlf(out: &mut Vec<u8>)
    ensures
        final(out)@ == old(out)@ + crlf(),
{
    out.push(CR);
    out.push(LF);
    assert(out@ =~= old(out)@ + crlf());
}

/// The encoder of protocol values.
pub struct Writer;

impl Writer {
    /// The bytes that `frame` is written as. Every value has them.
    pub fn write(frame: &Frame) -> (bytes: Vec<u8>)
        ensures
            bytes@ == encode(frame@),
    {
        let mut bytes: Vec<u8> = Vec::new();
        Self::write_into(&mut bytes, frame);
        assert(Seq::<u8>::empty() + encode(frame@) =~= encode(frame@));
        bytes
    }

    /// Appends the bytes of `frame` to `out`.
    pub fn write_into(out: &mut Vec<u8>, frame: &Frame)
        ensures
            final(out)@ == old(out)@ + encode(frame@),
        decreases frame,
    {
        match frame {
            Frame::SimpleString(s) => {
                out.push(PLUS);
                push_all(out, s.as_str().as_bytes());
                push_crlf(out);
                assert(out@ =~= old(out)@ + encode(frame@));
            },
            Frame::Error(e) => {
                out.push(MINUS);
                push_all(out, e.as_str().as_bytes());
                push_crlf(out);
                assert(out@ =~= old(out)@ + encode(frame@));
            },
            Frame::Integer(i) => {
                out.push(COLON);
                push_decimal(out, *i);
                push_crlf(out);
                assert(out@ =~= old(out)@ + encode(frame@));
            },
            Frame::BulkString(Some(s)) => {
                let payload = s.as_str().as_bytes();
                out.push(DOLLAR);
                push_digits(out, payload.len() as u64);
                push_crlf(out);
                push_all(out, payload);
                push_crlf(out);
                assert(out@ =~= old(out)@ + encode(frame@));
            },
            Frame::BulkString(None) => {
                out.push(DOLLAR);
                out.push(MINUS);
                out.push(0x31);
                push_crlf(out);
                assert(out@ =~= old(out)@ + encode(frame@));
            },
            Frame::Array(items) => {
                out.push(STAR);
                push_digits(out, items.len() as u64);
                push_crlf(out);
                let ghost header = out@;
                assert(header =~= old(out)@ + (seq![STAR] + decimal(items.len() as int) + crlf()));
                let mut i: usize = 0;
                while i < items.len()
                    invariant
                        *frame == Frame::Array(*items),
                        i <= items.len(),
                        out@ == header + encode_all(views(items@.take(i as int))),
                    decreases items.len() - i,
                {
                    proof {
                        assert(decreases_to!(*frame => frame->Array_0));
                        assert(decreases_to!(*items => items[i as int]));
                        let done = items@.take(i as int);
                        lemma_views(done);
                        lemma_views(done.push(items@[i as int]));
                        assert(items@.take(i + 1) =~= done.push(items@[i as int]));
                        assert(views(done.push(items@[i as int])) =~= views(done).push(
                            items@[i as int]@,
                        ));
                        lemma_encode_all_push(views(done), items@[i as int]@);
                    }
                    Self::write_into(out, &items[i]);
                    i += 1;
                    assert(out@ =~= header + encode_all(views(items@.take(i as int))));
                }
                proof {
                    assert(items@.take(items.len() as int) =~= items@);
                    lemma_views(items@);
                    assert(frame@ == FrameView::Array(views(items@)));
                    assert(out@ =~= old(out)@ + encode(frame@));
                }
            },
        }
    }
}

} // verus!
