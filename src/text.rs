//! Variable-length byte runs: delimiter search, UTF-8 text, and the text
//! codec.
use vstd::prelude::*;
use vstd::utf8::{decode_utf8, encode_utf8, valid_utf8};
use bytes::BytesMut;
use crate::buffer::{buffer_contents, extend_buffer};
use crate::schema::{DecodeError, DecodeFault};

verus! {

/// Whether `needle` occurs in `hay` at index `i`.
pub open spec fn occurs_at(hay: Seq<u8>, needle: Seq<u8>, i: int) -> bool {
    0 <= i && i + needle.len() <= hay.len() && hay.subrange(i, i + needle.len()) == needle
}

/// The first index at or after `from` where `needle` occurs in `hay`.
pub open spec fn first_occurrence(hay: Seq<u8>, needle: Seq<u8>, from: nat) -> Option<nat>
    decreases hay.len() + 1 - from,
{
    if from + needle.len() > hay.len() {
        None
    } else if occurs_at(hay, needle, from as int) {
        Some(from)
    } else {
        first_occurrence(hay, needle, from + 1)
    }
}

proof fn lemma_first_occurrence(hay: Seq<u8>, needle: Seq<u8>, from: nat, r: Option<usize>)
    requires
        match r {
            Some(p) => from <= p && occurs_at(hay, needle, p as int) && forall|k: int|
                from <= k < p ==> !occurs_at(hay, needle, k),
            None => forall|k: int| from <= k ==> !occurs_at(hay, needle, k),
        },
    ensures
        first_occurrence(hay, needle, from) == match r {
            Some(p) => Some(p as nat),
            None => None::<nat>,
        },
    decreases hay.len() + 1 - from,
{
    if from + needle.len() > hay.len() {
    } else if occurs_at(hay, needle, from as int) {
    } else {
        lemma_first_occurrence(hay, needle, from + 1, r);
    }
}

/// The text that bytes which are not valid UTF-8 decode to, with replacement
/// characters.
pub uninterp spec fn lossy_utf8(b: Seq<u8>) -> Seq<char>;

/// The text that the bytes `b` decode to.
pub open spec fn text_of(b: Seq<u8>) -> Seq<char> {
    if valid_utf8(b) {
        decode_utf8(b)
    } else {
        lossy_utf8(b)
    }
}

/// Relies on `memchr::memmem::find`: the index of the first occurrence of
/// `needle` in `haystack`, or `None` where it does not occur.
#[verifier::external_body]
fn find_first(haystack: &[u8], needle: &[u8]) -> (r: Option<usize>)
    ensures
        match r {
            Some(p) => occurs_at(haystack@, needle@, p as int) && forall|k: int|
                0 <= k < p ==> !occurs_at(haystack@, needle@, k),
            None => forall|k: int| !occurs_at(haystack@, needle@, k),
        },
{
    memchr::memmem::find(haystack, needle)
}

/// Relies on `String::from_utf8_lossy`: valid UTF-8 gives the characters it
/// encodes; other input gives text with replacement characters.
#[verifier::external_body]
fn utf8_lossy(b: &[u8]) -> (r: String)
    ensures
        valid_utf8(b@) ==> r@ == decode_utf8(b@),
        !valid_utf8(b@) ==> r@ == lossy_utf8(b@),
{
    String::from_utf8_lossy(b).into_owned()
}

/// Where a run that starts at `pos` ends: the end of its payload and the
/// position after it. With a delimiter, the payload ends at the delimiter's
/// first occurrence, which is skipped; without one, at the end of the input.
pub open spec fn delimited_run(buf: Seq<u8>, pos: nat, delimiter: Option<Seq<u8>>) -> Result<(nat, nat), DecodeFault> {
    if pos > buf.len() {
        Err(DecodeFault::BufferTooShort)
    } else {
        match delimiter {
            None => Ok((buf.len(), buf.len())),
            Some(d) => match first_occurrence(buf.subrange(pos as int, buf.len() as int), d, 0) {
                Some(p) => Ok((pos + p, pos + p + d.len())),
                None => Err(DecodeFault::DelimiterNotFound),
            },
        }
    }
}

/// Where a run that starts at `pos` ends; see `delimited_run`.
pub fn find_run_end(buf: &[u8], pos: usize, delimiter: Option<&[u8]>) -> (r: Result<(usize, usize), DecodeError>)
    ensures
        match delimited_run(buf@, pos as nat, match delimiter {
            Some(d) => Some(d@),
            None => None,
        }) {
            Ok((e, n)) => r matches Ok((e2, n2)) && e2 == e && n2 == n,
            Err(f) => r matches Err(err) && err@ == f,
        },
        r matches Ok((e, n)) ==> pos <= e <= n <= buf@.len(),
{
    let len = buf.len();
    if pos > len {
        return Err(DecodeError::BufferTooShort);
    }
    match delimiter {
        None => Ok((len, len)),
        Some(d) => {
            let hay = &buf[pos..len];
            let found = find_first(hay, d);
            proof {
                lemma_first_occurrence(hay@, d@, 0, found);
            }
            match found {
                Some(p) => {
                    proof {
                        assert(hay@.subrange(p as int, p + d@.len()) == d@);
                    }
                    Ok((pos + p, pos + p + d.len()))
                },
                None => Err(DecodeError::DelimiterNotFound),
            }
        },
    }
}

/// The bytes of `buf` from `start` to `end`.
pub fn copy_range(buf: &[u8], start: usize, end: usize) -> (r: Vec<u8>)
    requires
        start <= end <= buf@.len(),
    ensures
        r@ == buf@.subrange(start as int, end as int),
{
    let mut out: Vec<u8> = Vec::new();
    let mut i: usize = start;
    while i < end
        invariant
            start <= i <= end <= buf@.len(),
            out@ == buf@.subrange(start as int, i as int),
        decreases end - i,
    {
        out.push(buf[i]);
        i = i + 1;
        assert(out@ =~= buf@.subrange(start as int, i as int));
    }
    out
}

/// The text that the bytes of `buf` from `start` to `end` decode to.
pub fn text_range(buf: &[u8], start: usize, end: usize) -> (r: String)
    requires
        start <= end <= buf@.len(),
    ensures
        r@ == text_of(buf@.subrange(start as int, end as int)),
{
    utf8_lossy(&buf[start..end])
}

/// The bytes that `encode_text` appends: the UTF-8 encoding of the text, then
/// the delimiter if there is one.
pub open spec fn text_bytes(value: Seq<char>, delimiter: Option<Seq<u8>>) -> Seq<u8> {
    encode_utf8(value) + match delimiter {
        Some(d) => d,
        None => Seq::empty(),
    }
}

/// Appends the UTF-8 bytes of `value` to `buf`, followed by `delimiter` if
/// there is one.
pub fn encode_text(value: &str, buf: &mut BytesMut, delimiter: Option<&[u8]>)
    requires
        buffer_contents(*old(buf)).len() + text_bytes(value@, match delimiter {
            Some(d) => Some(d@),
            None => None,
        }).len() <= isize::MAX,
    ensures
        buffer_contents(*final(buf)) == buffer_contents(*old(buf)) + text_bytes(value@, match delimiter {
            Some(d) => Some(d@),
            None => None,
        }),
{
    let bytes = value.as_bytes();
    extend_buffer(buf, bytes);
    match delimiter {
        Some(d) => {
            extend_buffer(buf, d);
        },
        None => {},
    }
    assert(buffer_contents(*buf) =~= buffer_contents(*old(buf)) + text_bytes(value@, match delimiter {
        Some(d) => Some(d@),
        None => None,
    }));
}

/// The text that decoding from `pos` gives, and the position after it.
pub open spec fn decoded_text(buf: Seq<u8>, pos: nat, delimiter: Option<Seq<u8>>) -> Result<(Seq<char>, nat), DecodeFault> {
    match delimited_run(buf, pos, delimiter) {
        Ok((e, n)) => Ok((text_of(buf.subrange(pos as int, e as int)), n)),
        Err(f) => Err(f),
    }
}

/// Decodes text at `*offset`: up to the first occurrence of `delimiter`, which
/// is skipped, or to the end of `buf` when there is no delimiter. Invalid UTF-8
/// gets replacement characters. On error `*offset` is left as it was.
pub fn decode_text(buf: &[u8], offset: &mut usize, delimiter: Option<&[u8]>) -> (r: Result<String, DecodeError>)
    ensures
        match decoded_text(buf@, *old(offset) as nat, match delimiter {
            Some(d) => Some(d@),
            None => None,
        }) {
            Ok((t, n)) => r matches Ok(s) && s@ == t && *final(offset) == n,
            Err(f) => r matches Err(e) && e@ == f && *final(offset) == *old(offset),
        },
{
    let pos = *offset;
    match find_run_end(buf, pos, delimiter) {
        Ok((end, next)) => {
            let s = text_range(buf, pos, end);
            *offset = next;
            Ok(s)
        },
        Err(e) => Err(e),
    }
}

/// Types that text decoded from bytes can be read into.
pub trait DecodeStr: Sized {
    /// The characters a value holds.
    spec fn chars(&self) -> Seq<char>;

    /// Decodes text at `*offset` as `decode_text` does.
    fn decode_str(buf: &[u8], offset: &mut usize, delimiter: Option<&[u8]>) -> (r: Result<Self, DecodeError>)
        ensures
            match decoded_text(buf@, *old(offset) as nat, match delimiter {
                Some(d) => Some(d@),
                None => None,
            }) {
                Ok((t, n)) => r matches Ok(s) && s.chars() == t && *final(offset) == n,
                Err(f) => r matches Err(e) && e@ == f && *final(offset) == *old(offset),
            },
    ;
}

impl DecodeStr for String {
    open spec fn chars(&self) -> Seq<char> {
        self@
    }

    fn decode_str(buf: &[u8], offset: &mut usize, delimiter: Option<&[u8]>) -> (r: Result<String, DecodeError>) {
        decode_text(buf, offset, delimiter)
    }
}

} // verus!
