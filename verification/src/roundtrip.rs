//! Decoding what was encoded: for which values the decoder gives back the
//! value that the encoder was given, and the proof that it does.

use crate::error::DecodeError;
use crate::frame::FrameView;
use crate::line::{
    crlf, crlf_at, field, first_crlf, has_crlf, lemma_first_crlf, lemma_first_crlf_after,
    lemma_has_first_crlf, line, CR, LF,
};
use crate::number::{
    decimal, digits_of, is_digit, is_digits, lemma_decimal_reads_back, lemma_digits_of,
    signed_decimal, MINUS, PLUS,
};
use crate::parser::{array, decode, flat, items, prepend, text_line, COLON, DOLLAR, STAR};
use crate::text::lemma_text_of_bytes;
use crate::writer::{encode, encode_all};
use vstd::prelude::*;
use vstd::utf8::*;

verus! {

/// A text whose bytes hold no line terminator, so that it fits in a line.
pub open spec fn fits_line(text: Seq<char>) -> bool {
    !has_crlf(encode_utf8(text))
}

/// A value that is read back wherever it stands in a buffer: a simple
/// string or an error whose text fits in a line, an integer, the null bulk
/// string, or a bulk string no longer than a 32-bit length can say.
pub open spec fn reads_back_anywhere(v: FrameView) -> bool {
    match v {
        FrameView::SimpleString(text) => fits_line(text),
        FrameView::Error(text) => fits_line(text),
        FrameView::Integer(_) => true,
        FrameView::BulkString(Some(text)) => encode_utf8(text).len() <= i32::MAX,
        FrameView::BulkString(None) => true,
        FrameView::Array(_) => false,
    }
}

/// The values of an array that is read back: each is read back anywhere,
/// but that the last may be an array that is itself read back.
pub open spec fn items_read_back(values: Seq<FrameView>) -> bool
    decreases values,
{
    forall|i: int|
        0 <= i < values.len() ==> {
            ||| reads_back_anywhere(#[trigger] values[i])
            ||| i == values.len() - 1 && values[i] is Array && reads_back(values[i])
        }
}

/// A value that decoding gives back from its encoding.
///
/// Three kinds of value are not. A simple string or an error ends at the
/// first line terminator, so a text that holds one is cut there. A length
/// or a count is a signed 32-bit number, so a longer bulk string or array
/// has none. An array takes the buffer up to its end, so an array inside an
/// array takes all that follows it, and is read back only as the last
/// value.
pub open spec fn reads_back(v: FrameView) -> bool
    decreases v,
{
    match v {
        FrameView::Array(values) => values.len() <= i32::MAX && items_read_back(values),
        _ => reads_back_anywhere(v),
    }
}

/// After `prefix`, a text without a terminator is the field up to the
/// terminator that follows it, and the line that this terminator ends.
pub proof fn lemma_line_after(prefix: Seq<u8>, text: Seq<u8>, tail: Seq<u8>)
    requires
        !has_crlf(text),
    ensures
        field(prefix + text + crlf() + tail, prefix) == Ok::<(Seq<u8>, Seq<u8>), DecodeError>(
            (crlf() + tail, text),
        ),
        line(prefix + text + crlf() + tail, prefix) == Ok::<(Seq<u8>, Seq<u8>), DecodeError>(
            (tail, text),
        ),
{
    let s = prefix + text + crlf() + tail;
    let body = s.skip(prefix.len() as int);
    assert(body =~= text + crlf() + tail);
    assert(prefix =~= s.subrange(0, prefix.len() as int));
    lemma_first_crlf_after(text, tail);
    lemma_first_crlf(body, text.len() as int);
    assert(body.skip(text.len() as int) =~= crlf() + tail);
    assert(body.take(text.len() as int) =~= text);
    assert((crlf() + tail).skip(2) =~= tail);
}

/// A number in decimal holds no line terminator.
pub proof fn lemma_decimal_fits_line(n: int)
    ensures
        !has_crlf(decimal(n)),
{
    let s = decimal(n);
    if n < 0 {
        lemma_digits_of((-n) as nat);
        assert forall|i: int| 0 <= i < s.len() implies s[i] != CR by {
            if i > 0 {
                assert(s[i] == digits_of((-n) as nat)[i - 1]);
                assert(is_digit(digits_of((-n) as nat)[i - 1]));
            }
        }
    } else {
        lemma_digits_of(n as nat);
        assert forall|i: int| 0 <= i < s.len() implies s[i] != CR by {
            assert(is_digit(s[i]));
        }
    }
    assert forall|i: int| !crlf_at(s, i) by {}
}

/// A bulk string whose payload has another number of bytes than its length
/// says decodes to no value. The payload is one without a line terminator
/// here, and what follows its terminator holds none either, unless the
/// length is the smaller number: more bytes than the payload has can only
/// be found in what follows.
pub proof fn lemma_bulk_length_mismatch(length: int, payload: Seq<u8>, tail: Seq<u8>)
    requires
        i32::MIN <= length <= i32::MAX,
        length != -1,
        !has_crlf(payload),
        payload.len() != length,
        length < payload.len() || !has_crlf(tail),
    ensures
        decode(seq![DOLLAR] + decimal(length) + crlf() + payload + crlf() + tail) == Err::<
            FrameView,
            DecodeError,
        >(DecodeError::LengthMismatch),
{
    let digits = decimal(length);
    let rest = payload + crlf() + tail;
    let s = seq![DOLLAR] + digits + crlf() + payload + crlf() + tail;
    assert(s =~= seq![DOLLAR] + digits + crlf() + rest);
    lemma_decimal_fits_line(length);
    lemma_line_after(seq![DOLLAR], digits, rest);
    lemma_decimal_reads_back(length);
    assert(s[0] == DOLLAR);
    assert(s.len() >= 2);
    if 0 <= length && rest.len() >= length + 2 {
        let found = rest.subrange(length, length + 2);
        assert(found[0] == rest[length] && found[1] == rest[length + 1]);
        if length < payload.len() {
            assert(rest[length] == payload[length]);
            if length + 1 < payload.len() {
                assert(rest[length + 1] == payload[length + 1]);
                assert(!crlf_at(payload, length));
            } else {
                assert(rest[length + 1] == CR);
            }
        } else if length == payload.len() + 1 {
            assert(rest[length] == LF);
        } else {
            let k = length - payload.len() - 2;
            assert(rest[length] == tail[k] && rest[length + 1] == tail[k + 1]);
            assert(!crlf_at(tail, k));
        }
        assert(found != crlf());
    }
}

/// The length of the null bulk string: the digits of -1.
pub open spec fn minus_one() -> Seq<u8> {
    seq![MINUS, 0x31u8]
}

/// The length of the null bulk string holds no terminator and writes -1.
proof fn lemma_null_length()
    ensures
        !has_crlf(minus_one()),
        signed_decimal(minus_one()) == Some(-1int),
{
    let digits = minus_one();
    assert forall|i: int| !crlf_at(digits, i) by {}
    assert(digits.skip(1) =~= seq![0x31u8]);
    assert(is_digits(digits.skip(1)));
    assert(digits.skip(1).drop_last() =~= Seq::<u8>::empty());
    reveal_with_fuel(crate::number::digits_value, 2);
}

/// A value that is read back anywhere is read from the front of a buffer
/// that begins with its encoding, and what follows the encoding is left.
pub proof fn lemma_flat_reads_back(v: FrameView, tail: Seq<u8>)
    requires
        reads_back_anywhere(v),
    ensures
        (encode(v) + tail).len() > 0,
        (encode(v) + tail)[0] != STAR,
        flat(encode(v) + tail) == Ok::<(Seq<u8>, FrameView), DecodeError>((tail, v)),
{
    let s = encode(v) + tail;
    match v {
        FrameView::SimpleString(text) => {
            let bytes = encode_utf8(text);
            assert(s =~= seq![PLUS] + bytes + crlf() + tail);
            lemma_line_after(seq![PLUS], bytes, tail);
            lemma_text_of_bytes(text);
            assert(s[0] == PLUS);
            assert(text_line(s, PLUS) == Ok::<(Seq<u8>, Seq<char>), DecodeError>((tail, text)));
        },
        FrameView::Error(text) => {
            let bytes = encode_utf8(text);
            assert(s =~= seq![MINUS] + bytes + crlf() + tail);
            lemma_line_after(seq![MINUS], bytes, tail);
            lemma_text_of_bytes(text);
            assert(s[0] == MINUS);
            assert(text_line(s, MINUS) == Ok::<(Seq<u8>, Seq<char>), DecodeError>((tail, text)));
        },
        FrameView::Integer(n) => {
            let digits = decimal(n as int);
            assert(s =~= seq![COLON] + digits + crlf() + tail);
            lemma_decimal_fits_line(n as int);
            lemma_line_after(seq![COLON], digits, tail);
            lemma_decimal_reads_back(n as int);
            assert(s[0] == COLON);
        },
        FrameView::BulkString(Some(text)) => {
            let payload = encode_utf8(text);
            let n = payload.len() as int;
            let digits = decimal(n);
            let rest = payload + crlf() + tail;
            assert(s =~= seq![DOLLAR] + digits + crlf() + rest);
            lemma_decimal_fits_line(n);
            lemma_line_after(seq![DOLLAR], digits, rest);
            lemma_decimal_reads_back(n);
            assert(rest.subrange(n, n + 2) =~= crlf());
            assert(rest.take(n) =~= payload);
            assert(rest.skip(n + 2) =~= tail);
            lemma_text_of_bytes(text);
            assert(s[0] == DOLLAR);
        },
        FrameView::BulkString(None) => {
            lemma_null_length();
            assert(s =~= seq![DOLLAR] + minus_one() + crlf() + tail);
            lemma_line_after(seq![DOLLAR], minus_one(), tail);
            assert(s[0] == DOLLAR);
        },
        _ => {},
    }
}

/// The values of an array that is read back are read from their encodings,
/// one after another.
pub proof fn lemma_items_read_back(values: Seq<FrameView>)
    requires
        items_read_back(values),
    ensures
        items(encode_all(values)) == Ok::<Seq<FrameView>, DecodeError>(values),
    decreases values, 0nat,
{
    let s = encode_all(values);
    if values.len() == 0 {
        assert(values =~= Seq::<FrameView>::empty());
        assert(items(s) == Ok::<Seq<FrameView>, DecodeError>(Seq::empty()));
    } else {
        let first = values.first();
        let rest = values.drop_first();
        assert(s == encode(first) + encode_all(rest));
        assert(values[0] == first);
        if reads_back_anywhere(first) {
            lemma_flat_reads_back(first, encode_all(rest));
            assert forall|i: int| 0 <= i < rest.len() implies {
                ||| reads_back_anywhere(#[trigger] rest[i])
                ||| i == rest.len() - 1 && rest[i] is Array && reads_back(rest[i])
            } by {
                assert(rest[i] == values[i + 1]);
            }
            lemma_items_read_back(rest);
            assert(seq![first] + rest =~= values);
            assert(items(s) == prepend(seq![first], items(encode_all(rest))));
            assert(items(s) == Ok::<Seq<FrameView>, DecodeError>(values));
        } else {
            assert(values.len() == 1);
            assert(rest =~= Seq::<FrameView>::empty());
            assert(encode_all(rest) =~= Seq::<u8>::empty());
            assert(s =~= encode(first));
            lemma_array_reads_back(first);
            assert(s[0] == STAR);
            assert(seq![first] =~= values);
            assert(items(s) == Ok::<Seq<FrameView>, DecodeError>(values));
        }
    }
}

/// An array that is read back is read from its encoding, which it takes
/// whole.
pub proof fn lemma_array_reads_back(v: FrameView)
    requires
        v is Array,
        reads_back(v),
    ensures
        encode(v).len() > 0,
        encode(v)[0] == STAR,
        array(encode(v)) == Ok::<(Seq<u8>, FrameView), DecodeError>((Seq::empty(), v)),
    decreases v, 1nat,
{
    let values = v->Array_0;
    let s = encode(v);
    let digits = decimal(values.len() as int);
    let body = encode_all(values);
    assert(s =~= seq![STAR] + digits + crlf() + body);
    lemma_decimal_fits_line(values.len() as int);
    lemma_line_after(seq![STAR], digits, body);
    lemma_decimal_reads_back(values.len() as int);
    lemma_items_read_back(values);
}

/// Decoding the encoding of a value gives the value back, for every value
/// that is read back: see `reads_back` for the values that are not.
pub proof fn theorem_round_trip(v: FrameView)
    requires
        reads_back(v),
    ensures
        decode(encode(v)) == Ok::<FrameView, DecodeError>(v),
{
    let s = encode(v);
    if v is Array {
        lemma_array_reads_back(v);
        assert(s.len() >= 2);
    } else {
        lemma_flat_reads_back(v, Seq::empty());
        assert(s + Seq::<u8>::empty() =~= s);
        assert(s.len() >= 2);
    }
}

/// After `prefix`, a text with a terminator in it is cut at its first
/// terminator: the field, and the line, is what stands before that.
pub proof fn lemma_line_cut(prefix: Seq<u8>, text: Seq<u8>, tail: Seq<u8>)
    requires
        has_crlf(text),
    ensures
        0 <= first_crlf(text) < text.len() - 1,
        field(prefix + text + crlf() + tail, prefix) == Ok::<(Seq<u8>, Seq<u8>), DecodeError>(
            (text.skip(first_crlf(text)) + crlf() + tail, text.take(first_crlf(text))),
        ),
        line(prefix + text + crlf() + tail, prefix) matches Ok((_, cut)) && cut == text.take(
            first_crlf(text),
        ),
{
    let s = prefix + text + crlf() + tail;
    let body = s.skip(prefix.len() as int);
    let i = first_crlf(text);
    lemma_has_first_crlf(text);
    assert(body =~= text + crlf() + tail);
    assert(prefix =~= s.subrange(0, prefix.len() as int));
    assert(body[i] == text[i] && body[i + 1] == text[i + 1]);
    assert forall|j: int| 0 <= j < i implies !crlf_at(body, j) by {
        assert(body[j] == text[j] && body[j + 1] == text[j + 1]);
        assert(!crlf_at(text, j));
    }
    lemma_first_crlf(body, i);
    assert(body.skip(i) =~= text.skip(i) + crlf() + tail);
    assert(body.take(i) =~= text.take(i));
}

/// A text that does not fit in a line is not read back from a line: what is
/// read is another text, if it is one at all.
proof fn lemma_text_line_cut(lead: u8, text: Seq<char>, tail: Seq<u8>)
    requires
        !fits_line(text),
    ensures
        text_line(seq![lead] + encode_utf8(text) + crlf() + tail, lead) matches Ok((_, read))
            ==> read != text,
{
    let bytes = encode_utf8(text);
    let s = seq![lead] + bytes + crlf() + tail;
    lemma_line_cut(seq![lead], bytes, tail);
    let cut = bytes.take(first_crlf(bytes));
    if valid_utf8(cut) {
        decode_utf8_encode_utf8(cut);
        assert(encode_utf8(decode_utf8(cut)).len() < bytes.len());
    }
}

/// A value that is no array and is not read back anywhere is not read from
/// the front of a buffer that begins with its encoding.
proof fn lemma_flat_not_read_back(v: FrameView, tail: Seq<u8>)
    requires
        !(v is Array),
        !reads_back_anywhere(v),
    ensures
        (encode(v) + tail).len() > 0,
        (encode(v) + tail)[0] != STAR,
        flat(encode(v) + tail) matches Ok((_, read)) ==> read != v,
{
    let s = encode(v) + tail;
    match v {
        FrameView::SimpleString(text) => {
            assert(s =~= seq![PLUS] + encode_utf8(text) + crlf() + tail);
            lemma_text_line_cut(PLUS, text, tail);
            assert(s[0] == PLUS);
        },
        FrameView::Error(text) => {
            assert(s =~= seq![MINUS] + encode_utf8(text) + crlf() + tail);
            lemma_text_line_cut(MINUS, text, tail);
            assert(s[0] == MINUS);
        },
        FrameView::BulkString(Some(text)) => {
            let payload = encode_utf8(text);
            let digits = decimal(payload.len() as int);
            let rest = payload + crlf() + tail;
            assert(s =~= seq![DOLLAR] + digits + crlf() + rest);
            lemma_decimal_fits_line(payload.len() as int);
            lemma_line_after(seq![DOLLAR], digits, rest);
            lemma_decimal_reads_back(payload.len() as int);
            assert(s[0] == DOLLAR);
        },
        _ => {},
    }
}

/// Values that are not those of an array that is read back are not read
/// from their encodings.
proof fn lemma_items_not_read_back(values: Seq<FrameView>)
    requires
        !items_read_back(values),
    ensures
        items(encode_all(values)) != Ok::<Seq<FrameView>, DecodeError>(values),
    decreases values, 0nat,
{
    let s = encode_all(values);
    let first = values.first();
    let rest = values.drop_first();
    let tail = encode_all(rest);
    assert(values.len() > 0);
    assert(values[0] == first);
    assert(s == encode(first) + tail);
    if first is Array {
        assert(encode(first)[0] == STAR);
        assert(s[0] == STAR);
        if values.len() == 1 {
            assert(rest =~= Seq::<FrameView>::empty());
            assert(tail =~= Seq::<u8>::empty());
            assert(s =~= encode(first));
            assert(!reads_back(first));
            lemma_array_not_read_back(first);
            match array(s) {
                Ok((_, read)) => {
                    assert(seq![read][0] != values[0]);
                },
                Err(_) => {},
            }
        } else {
            match array(s) {
                Ok((_, read)) => {
                    assert(seq![read].len() != values.len());
                },
                Err(_) => {},
            }
        }
    } else if reads_back_anywhere(first) {
        lemma_flat_reads_back(first, tail);
        let bad = choose|i: int|
            0 <= i < values.len() && !{
                ||| reads_back_anywhere(#[trigger] values[i])
                ||| i == values.len() - 1 && values[i] is Array && reads_back(values[i])
            };
        assert(bad >= 1);
        assert(rest[bad - 1] == values[bad]);
        assert(!items_read_back(rest));
        lemma_items_not_read_back(rest);
        match items(tail) {
            Ok(read) => {
                assert((seq![first] + read).drop_first() =~= read);
            },
            Err(_) => {},
        }
    } else {
        lemma_flat_not_read_back(first, tail);
        match flat(s) {
            Ok((left, read)) => {
                match items(left) {
                    Ok(more) => {
                        assert((seq![read] + more)[0] != values[0]);
                    },
                    Err(_) => {},
                }
            },
            Err(_) => {},
        }
    }
}

/// An array that is not read back is not read from its encoding.
proof fn lemma_array_not_read_back(v: FrameView)
    requires
        v is Array,
        !reads_back(v),
    ensures
        array(encode(v)) matches Ok((_, read)) ==> read != v,
    decreases v, 1nat,
{
    let values = v->Array_0;
    let s = encode(v);
    let digits = decimal(values.len() as int);
    let body = encode_all(values);
    assert(s =~= seq![STAR] + digits + crlf() + body);
    lemma_decimal_fits_line(values.len() as int);
    lemma_line_after(seq![STAR], digits, body);
    lemma_decimal_reads_back(values.len() as int);
    if values.len() <= i32::MAX {
        lemma_items_not_read_back(values);
    }
}

/// Decoding the encoding of a value gives the value back exactly where the
/// value is one that is read back.
pub proof fn theorem_round_trip_exact(v: FrameView)
    ensures
        reads_back(v) <==> decode(encode(v)) == Ok::<FrameView, DecodeError>(v),
{
    if reads_back(v) {
        theorem_round_trip(v);
    } else if v is Array {
        lemma_array_not_read_back(v);
        assert(encode(v)[0] == STAR);
    } else {
        lemma_flat_not_read_back(v, Seq::empty());
        assert(encode(v) + Seq::<u8>::empty() =~= encode(v));
    }
}

} // verus!
