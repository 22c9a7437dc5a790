//! Lines: where a buffer holds its first line terminator, and what stands
//! before and after it.

use crate::error::DecodeError;
use vstd::prelude::*;
use vstd::slice::slice_subrange;

verus! {

/// Carriage return.
pub const CR: u8 = 0x0d;

/// Line feed.
pub const LF: u8 = 0x0a;

/// The two bytes that end a line.
pub open spec fn crlf() -> Seq<u8> {
    seq![CR, LF]
}

/// A line terminator begins at index `i`.
pub open spec fn crlf_at(s: Seq<u8>, i: int) -> bool {
    0 <= i && i + 1 < s.len() && s[i] == CR && s[i + 1] == LF
}

/// The sequence holds a line terminator.
pub open spec fn has_crlf(s: Seq<u8>) -> bool {
    exists|i: int| crlf_at(s, i)
}

/// A line terminator begins at index `i`, and none begins before it.
pub open spec fn first_crlf_at(s: Seq<u8>, i: int) -> bool {
    crlf_at(s, i) && forall|j: int| 0 <= j < i ==> !crlf_at(s, j)
}

/// The index of the first line terminator of a sequence that holds one.
pub open spec fn first_crlf(s: Seq<u8>) -> int {
    choose|i: int| first_crlf_at(s, i)
}

/// What follows `prefix` up to the first line terminator, which is not
/// consumed: the pair is what is left, beginning with that terminator, and
/// the field before it. Without the prefix or a terminator after it the
/// frame is malformed.
pub open spec fn field(s: Seq<u8>, prefix: Seq<u8>) -> Result<(Seq<u8>, Seq<u8>), DecodeError> {
    let body = s.skip(prefix.len() as int);
    if prefix.is_prefix_of(s) && has_crlf(body) {
        Ok((body.skip(first_crlf(body)), body.take(first_crlf(body))))
    } else {
        Err(DecodeError::MalformedFrame)
    }
}

/// The line that follows `prefix`: the pair is what is left after the line's
/// terminator, and the line without it.
pub open spec fn line(s: Seq<u8>, prefix: Seq<u8>) -> Result<(Seq<u8>, Seq<u8>), DecodeError> {
    match field(s, prefix) {
        Ok((rest, text)) => Ok((rest.skip(2), text)),
        Err(e) => Err(e),
    }
}

/// Where a first terminator is, there is only one such place.
pub proof fn lemma_first_crlf(s: Seq<u8>, i: int)
    requires
        first_crlf_at(s, i),
    ensures
        has_crlf(s),
        first_crlf(s) == i,
{
    assert(crlf_at(s, i));
    let k = first_crlf(s);
    assert(first_crlf_at(s, k));
    if k < i {
        assert(!crlf_at(s, k));
    }
    if i < k {
        assert(!crlf_at(s, i));
    }
}

/// A sequence with a terminator has a first one.
pub proof fn lemma_has_first_crlf(s: Seq<u8>)
    requires
        has_crlf(s),
    ensures
        first_crlf_at(s, first_crlf(s)),
{
    let w = choose|i: int| crlf_at(s, i);
    lemma_least_crlf(s, w);
}

proof fn lemma_least_crlf(s: Seq<u8>, w: int)
    requires
        crlf_at(s, w),
    ensures
        exists|i: int| first_crlf_at(s, i),
    decreases w,
{
    if exists|j: int| 0 <= j < w && crlf_at(s, j) {
        let j = choose|j: int| 0 <= j < w && crlf_at(s, j);
        lemma_least_crlf(s, j);
    } else {
        assert(first_crlf_at(s, w));
    }
}

/// After a text without a terminator, the first terminator is the one that
/// is appended to it, whatever follows.
pub proof fn lemma_first_crlf_after(text: Seq<u8>, tail: Seq<u8>)
    requires
        !has_crlf(text),
    ensures
        first_crlf_at(text + crlf() + tail, text.len() as int),
{
    let s = text + crlf() + tail;
    let n = text.len() as int;
    assert(s[n] == CR && s[n + 1] == LF);
    assert forall|j: int| 0 <= j < n implies !crlf_at(s, j) by {
        if j + 1 < n {
            assert(s[j] == text[j] && s[j + 1] == text[j + 1]);
            assert(!crlf_at(text, j));
        }
    }
}

/// The index of the first line terminator, if there is one.
pub fn find_crlf(buf: &[u8]) -> (found: Option<usize>)
    ensures
        match found {
            Some(i) => first_crlf_at(buf@, i as int),
            None => !has_crlf(buf@),
        },
{
    if buf.len() < 2 {
        return None;
    }
    let mut i: usize = 0;
    while i < buf.len() - 1
        invariant
            buf.len() >= 2,
            forall|j: int| 0 <= j < i ==> !crlf_at(buf@, j),
        decreases buf.len() - i,
    {
        if buf[i] == CR && buf[i + 1] == LF {
            return Some(i);
        }
        i += 1;
    }
    None
}

/// Whether `buf` begins with `prefix`.
pub fn starts_with(buf: &[u8], prefix: &[u8]) -> (yes: bool)
    ensures
        yes == prefix@.is_prefix_of(buf@),
{
    if prefix.len() > buf.len() {
        return false;
    }
    let mut i: usize = 0;
    while i < prefix.len()
        invariant
            prefix.len() <= buf.len(),
            i <= prefix.len(),
            forall|j: int| 0 <= j < i ==> prefix@[j] == buf@[j],
        decreases prefix.len() - i,
    {
        if prefix[i] != buf[i] {
            assert(prefix@[i as int] != buf@.subrange(0, prefix@.len() as int)[i as int]);
            return false;
        }
        i += 1;
    }
    assert(prefix@ =~= buf@.subrange(0, prefix@.len() as int));
    true
}

/// Splits `buf` after `prefix` at the first line terminator, which stays
/// with what is left.
pub fn take_field<'a>(buf: &'a [u8], prefix: &[u8]) -> (taken: Result<
    (&'a [u8], &'a [u8]),
    DecodeError,
>)
    ensures
        match taken {
            Ok((rest, text)) => field(buf@, prefix@) == Ok::<(Seq<u8>, Seq<u8>), DecodeError>(
                (rest@, text@),
            ),
            Err(e) => field(buf@, prefix@) == Err::<(Seq<u8>, Seq<u8>), DecodeError>(e),
        },
{
    if !starts_with(buf, prefix) {
        return Err(DecodeError::MalformedFrame);
    }
    let body = slice_subrange(buf, prefix.len(), buf.len());
    match find_crlf(body) {
        Some(i) => {
            proof {
                lemma_first_crlf(body@, i as int);
            }
            Ok((slice_subrange(body, i, body.len()), slice_subrange(body, 0, i)))
        },
        None => Err(DecodeError::MalformedFrame),
    }
}

} // verus!
