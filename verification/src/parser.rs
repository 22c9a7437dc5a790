//! Decoding: from the bytes of one buffer to a protocol value.

use crate::error::DecodeError;
use crate::frame::{lemma_views, views, Frame, FrameView};
use crate::line::{crlf, lemma_has_first_crlf, line, take_field, CR, LF};
use crate::number::{number_in, parse_i32, parse_i64, MINUS, PLUS};
use crate::text::{decode_text, text_of};
use vstd::prelude::*;
use vstd::slice::slice_subrange;

verus! {

/// The byte `:`, which leads an integer.
pub const COLON: u8 = 0x3a;

/// The byte `$`, which leads a bulk string.
pub const DOLLAR: u8 = 0x24;

/// The byte `*`, which leads an array.
pub const STAR: u8 = 0x2a;

/// What a part of the grammar makes of a buffer: what is left of the buffer
/// and the value read, or the reason why there is none.
pub type Parsed = Result<(Seq<u8>, FrameView), DecodeError>;

/// A line of text after `lead`, read as the text of a value.
pub open spec fn text_line(s: Seq<u8>, lead: u8) -> Result<(Seq<u8>, Seq<char>), DecodeError> {
    match line(s, seq![lead]) {
        Ok((rest, payload)) => match text_of(payload) {
            Ok(text) => Ok((rest, text)),
            Err(e) => Err(e),
        },
        Err(e) => Err(e),
    }
}

/// `+`, a line of text: a simple string.
pub open spec fn simple_string(s: Seq<u8>) -> Parsed {
    match text_line(s, PLUS) {
        Ok((rest, text)) => Ok((rest, FrameView::SimpleString(text))),
        Err(e) => Err(e),
    }
}

/// `-`, a line of text: an error.
pub open spec fn error(s: Seq<u8>) -> Parsed {
    match text_line(s, MINUS) {
        Ok((rest, text)) => Ok((rest, FrameView::Error(text))),
        Err(e) => Err(e),
    }
}

/// `:`, a line that writes a signed 64-bit number: an integer.
pub open spec fn integer(s: Seq<u8>) -> Parsed {
    match line(s, seq![COLON]) {
        Ok((rest, digits)) => match number_in(digits, i64::MIN as int, i64::MAX as int) {
            Ok(n) => Ok((rest, FrameView::Integer(n as i64))),
            Err(e) => Err(e),
        },
        Err(e) => Err(e),
    }
}

/// `$`, a line that writes a signed 32-bit length, then as many bytes as
/// the length says and a line terminator: a bulk string.
///
/// The length -1 stands for the null string, which ends with the line of
/// its length. For any other length the payload is the bytes that follow
/// that line, whatever they are, a line terminator among them too. Where
/// the buffer does not hold that many bytes with a terminator after them,
/// the length does not match; a negative length other than -1 never does.
pub open spec fn bulk_string(s: Seq<u8>) -> Parsed {
    match line(s, seq![DOLLAR]) {
        Ok((rest, digits)) => match number_in(digits, i32::MIN as int, i32::MAX as int) {
            Ok(n) => if n == -1 {
                Ok((rest, FrameView::BulkString(None)))
            } else if n < 0 || rest.len() < n + 2 || rest.subrange(n, n + 2) != crlf() {
                Err(DecodeError::LengthMismatch)
            } else {
                match text_of(rest.take(n)) {
                    Ok(text) => Ok((rest.skip(n + 2), FrameView::BulkString(Some(text)))),
                    Err(e) => Err(e),
                }
            },
            Err(e) => Err(e),
        },
        Err(e) => Err(e),
    }
}

/// One value that is no array, by the leading byte of a buffer that is not
/// empty.
pub open spec fn flat(s: Seq<u8>) -> Parsed {
    if s[0] == PLUS {
        simple_string(s)
    } else if s[0] == COLON {
        integer(s)
    } else if s[0] == MINUS {
        error(s)
    } else if s[0] == DOLLAR {
        bulk_string(s)
    } else {
        Err(DecodeError::UnknownType)
    }
}

/// A value that is no array takes at least one byte.
pub proof fn lemma_flat_consumes(s: Seq<u8>)
    requires
        s.len() > 0,
    ensures
        flat(s) matches Ok((rest, _)) ==> rest.len() < s.len(),
{
    if flat(s) is Ok {
        lemma_has_first_crlf(s.skip(1));
    }
}

/// `*`, a line that writes a signed 32-bit count, then values up to the end
/// of the buffer, whose number must be the count: an array. Nothing is left
/// of the buffer.
pub open spec fn array(s: Seq<u8>) -> Parsed
    decreases s.len(), 0nat,
{
    match line(s, seq![STAR]) {
        Ok((rest, digits)) => match number_in(digits, i32::MIN as int, i32::MAX as int) {
            Ok(n) => {
                proof {
                    lemma_has_first_crlf(s.skip(1));
                }
                match items(rest) {
                    Ok(values) => if values.len() != n {
                        Err(DecodeError::LengthMismatch)
                    } else {
                        Ok((Seq::empty(), FrameView::Array(values)))
                    },
                    Err(e) => Err(e),
                }
            },
            Err(e) => Err(e),
        },
        Err(e) => Err(e),
    }
}

/// The values that a buffer holds one after another, up to its end. An
/// array among them takes all that is left, and so is the last.
pub open spec fn items(s: Seq<u8>) -> Result<Seq<FrameView>, DecodeError>
    decreases s.len(), 1nat,
{
    if s.len() == 0 {
        Ok(Seq::empty())
    } else if s[0] == STAR {
        match array(s) {
            Ok((_, value)) => Ok(seq![value]),
            Err(e) => Err(e),
        }
    } else {
        match flat(s) {
            Ok((rest, value)) => {
                proof {
                    lemma_flat_consumes(s);
                }
                prepend(seq![value], items(rest))
            },
            Err(e) => Err(e),
        }
    }
}

/// The values read so far before those that are still to come, if they come.
pub open spec fn prepend(head: Seq<FrameView>, tail: Result<Seq<FrameView>, DecodeError>) -> Result<
    Seq<FrameView>,
    DecodeError,
> {
    match tail {
        Ok(values) => Ok(head + values),
        Err(e) => Err(e),
    }
}

/// One value, by the leading byte of a buffer that is not empty.
pub open spec fn value(s: Seq<u8>) -> Parsed {
    if s[0] == STAR {
        array(s)
    } else {
        flat(s)
    }
}

/// The value that a buffer decodes to: the one it begins with, where it
/// holds at least two bytes.
pub open spec fn decode(s: Seq<u8>) -> Result<FrameView, DecodeError> {
    if s.len() < 2 {
        Err(DecodeError::BufferTooShort)
    } else {
        match value(s) {
            Ok((_, v)) => Ok(v),
            Err(e) => Err(e),
        }
    }
}

/// A buffer of fewer than two bytes decodes to no value.
pub proof fn lemma_short_buffer(s: Seq<u8>)
    requires
        s.len() < 2,
    ensures
        decode(s) == Err::<FrameView, DecodeError>(DecodeError::BufferTooShort),
{
}

/// An executable result stands for a result of the grammar: the same
/// failure, or what is left and a value with that model.
pub open spec fn parsed_as(got: Result<(&[u8], Frame), DecodeError>, want: Parsed) -> bool {
    match (got, want) {
        (Ok((rest, frame)), Ok((rest_view, frame_view))) => rest@ == rest_view && frame@
            == frame_view,
        (Err(e), Err(e_view)) => e == e_view,
        _ => false,
    }
}

/// The decoder of protocol values.
pub struct Parser;

impl Parser {
    /// Decodes the value that a buffer begins with.
    pub fn parse(buf: &[u8]) -> (decoded: Result<Frame, DecodeError>)
        ensures
            match decoded {
                Ok(frame) => decode(buf@) == Ok::<FrameView, DecodeError>(frame@),
                Err(e) => decode(buf@) == Err::<FrameView, DecodeError>(e),
            },
    {
        if buf.len() < 2 {
            return Err(DecodeError::BufferTooShort);
        }
        let lead = buf[0];
        let parsed = if lead == PLUS {
            Self::parse_simple_string(buf)
        } else if lead == COLON {
            Self::parse_integer(buf)
        } else if lead == MINUS {
            Self::parse_error(buf)
        } else if lead == DOLLAR {
            Self::parse_bulk_string(buf)
        } else if lead == STAR {
            Self::parse_array(buf)
        } else {
            Err(DecodeError::UnknownType)
        };
        match parsed {
            Ok((_, frame)) => Ok(frame),
            Err(e) => Err(e),
        }
    }

    /// Splits a buffer after `prefix` into a line and what follows the
    /// line's terminator.
    pub fn parse_raw_buffer<'a>(buf: &'a [u8], prefix: &[u8]) -> (taken: Result<
        (&'a [u8], &'a [u8]),
        DecodeError,
    >)
        ensures
            match taken {
                Ok((rest, text)) => line(buf@, prefix@) == Ok::<(Seq<u8>, Seq<u8>), DecodeError>(
                    (rest@, text@),
                ),
                Err(e) => line(buf@, prefix@) == Err::<(Seq<u8>, Seq<u8>), DecodeError>(e),
            },
    {
        match take_field(buf, prefix) {
            Ok((rest, text)) => {
                proof {
                    lemma_has_first_crlf(buf@.skip(prefix@.len() as int));
                }
                Ok((slice_subrange(rest, 2, rest.len()), text))
            },
            Err(e) => Err(e),
        }
    }

    /// Reads a line of text after `lead`.
    fn parse_text_line(buf: &[u8], lead: u8) -> (parsed: Result<(&[u8], String), DecodeError>)
        ensures
            match parsed {
                Ok((rest, text)) => text_line(buf@, lead) == Ok::<
                    (Seq<u8>, Seq<char>),
                    DecodeError,
                >((rest@, text@)),
                Err(e) => text_line(buf@, lead) == Err::<(Seq<u8>, Seq<char>), DecodeError>(e),
            },
    {
        let prefix = [lead];
        assert(prefix@ =~= seq![lead]);
        match Self::parse_raw_buffer(buf, prefix.as_slice()) {
            Ok((rest, payload)) => match decode_text(payload) {
                Ok(text) => Ok((rest, text)),
                Err(e) => Err(e),
            },
            Err(e) => Err(e),
        }
    }

    /// Reads a simple string.
    pub fn parse_simple_string(buf: &[u8]) -> (parsed: Result<(&[u8], Frame), DecodeError>)
        ensures
            parsed_as(parsed, simple_string(buf@)),
    {
        match Self::parse_text_line(buf, PLUS) {
            Ok((rest, text)) => Ok((rest, Frame::SimpleString(text))),
            Err(e) => Err(e),
        }
    }

    /// Reads an integer.
    pub fn parse_integer(buf: &[u8]) -> (parsed: Result<(&[u8], Frame), DecodeError>)
        ensures
            parsed_as(parsed, integer(buf@)),
    {
        let prefix = [COLON];
        assert(prefix@ =~= seq![COLON]);
        match Self::parse_raw_buffer(buf, prefix.as_slice()) {
            Ok((rest, digits)) => match parse_i64(digits) {
                Ok(n) => Ok((rest, Frame::Integer(n))),
                Err(e) => Err(e),
            },
            Err(e) => Err(e),
        }
    }

    /// Reads an error.
    pub fn parse_error(buf: &[u8]) -> (parsed: Result<(&[u8], Frame), DecodeError>)
        ensures
            parsed_as(parsed, error(buf@)),
    {
        match Self::parse_text_line(buf, MINUS) {
            Ok((rest, text)) => Ok((rest, Frame::Error(text))),
            Err(e) => Err(e),
        }
    }

    /// Reads a bulk string.
    pub fn parse_bulk_string(buf: &[u8]) -> (parsed: Result<(&[u8], Frame), DecodeError>)
        ensures
            parsed_as(parsed, bulk_string(buf@)),
    {
        let dollar = [DOLLAR];
        assert(dollar@ =~= seq![DOLLAR]);
        let (remaining, digits) = match Self::parse_raw_buffer(buf, dollar.as_slice()) {
            Ok(taken) => taken,
            Err(e) => { return Err(e); },
        };
        let len: i32 = match parse_i32(digits) {
            Ok(n) => n,
            Err(e) => { return Err(e); },
        };
        if len == -1 {
            return Ok((remaining, Frame::BulkString(None)));
        }
        if len < 0 {
            return Err(DecodeError::LengthMismatch);
        }
        let n = len as usize;
        if remaining.len() < 2 || remaining.len() - 2 < n {
            return Err(DecodeError::LengthMismatch);
        }
        if remaining[n] != CR || remaining[n + 1] != LF {
            assert(remaining@.subrange(n as int, n + 2)[0] == remaining@[n as int]);
            assert(remaining@.subrange(n as int, n + 2)[1] == remaining@[n + 1]);
            return Err(DecodeError::LengthMismatch);
        }
        assert(remaining@.subrange(n as int, n + 2) =~= crlf());
        match decode_text(slice_subrange(remaining, 0, n)) {
            Ok(text) => Ok(
                (
                    slice_subrange(remaining, n + 2, remaining.len()),
                    Frame::BulkString(Some(text)),
                ),
            ),
            Err(e) => Err(e),
        }
    }

    /// Reads an array, which takes the buffer up to its end.
    pub fn parse_array(buf: &[u8]) -> (parsed: Result<(&[u8], Frame), DecodeError>)
        ensures
            parsed_as(parsed, array(buf@)),
        decreases buf@.len(),
    {
        let star = [STAR];
        assert(star@ =~= seq![STAR]);
        let (body, digits) = match Self::parse_raw_buffer(buf, star.as_slice()) {
            Ok(taken) => taken,
            Err(e) => { return Err(e); },
        };
        let len: i32 = match parse_i32(digits) {
            Ok(n) => n,
            Err(e) => { return Err(e); },
        };
        proof {
            lemma_has_first_crlf(buf@.skip(1));
        }
        let mut array: Vec<Frame> = Vec::new();
        let mut remaining = body;
        while !remaining.is_empty()
            invariant
                remaining@.len() < buf@.len(),
                items(body@) == prepend(views(array@), items(remaining@)),
                line(buf@, seq![STAR]) == Ok::<(Seq<u8>, Seq<u8>), DecodeError>(
                    (body@, digits@),
                ),
                number_in(digits@, i32::MIN as int, i32::MAX as int) == Ok::<int, DecodeError>(
                    len as int,
                ),
            decreases remaining@.len(),
        {
            let lead = remaining[0];
            let parsed = if lead == PLUS {
                Self::parse_simple_string(remaining)
            } else if lead == COLON {
                Self::parse_integer(remaining)
            } else if lead == MINUS {
                Self::parse_error(remaining)
            } else if lead == DOLLAR {
                Self::parse_bulk_string(remaining)
            } else if lead == STAR {
                Self::parse_array(remaining)
            } else {
                Err(DecodeError::UnknownType)
            };
            let (rest, frame) = match parsed {
                Ok(read) => read,
                Err(e) => { return Err(e); },
            };
            proof {
                lemma_flat_consumes(remaining@);
                let before = views(array@);
                let after = views(array@.push(frame));
                lemma_views(array@);
                lemma_views(array@.push(frame));
                assert(after =~= before + seq![frame@]);
                if lead == STAR {
                    assert(rest@ =~= Seq::<u8>::empty());
                    assert(items(rest@) == Ok::<Seq<FrameView>, DecodeError>(Seq::empty()));
                    assert(after + Seq::<FrameView>::empty() =~= before + seq![frame@]);
                } else {
                    match items(rest@) {
                        Ok(values) => {
                            assert(after + values =~= before + (seq![frame@] + values));
                        },
                        Err(_) => {},
                    }
                }
            }
            array.push(frame);
            remaining = rest;
        }
        proof {
            lemma_views(array@);
            assert(views(array@) + Seq::<FrameView>::empty() =~= views(array@));
            assert(items(body@) == Ok::<Seq<FrameView>, DecodeError>(views(array@)));
            assert(Frame::Array(array)@ == FrameView::Array(views(array@)));
            assert(remaining@ =~= Seq::<u8>::empty());
        }
        if len < 0 || array.len() != len as usize {
            return Err(DecodeError::LengthMismatch);
        }
        Ok((remaining, Frame::Array(array)))
    }
}

} // verus!
