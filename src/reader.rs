use vstd::prelude::*;
use vstd::utf8::*;

verus! {

broadcast use vstd::std_specs::vec::group_vec_axioms;

/// How many bytes the reader decodes at a time.
pub const CHUNK: usize = 4;

/// The length of the longest prefix of `b` that is valid UTF-8.
pub open spec fn valid_prefix_len(b: Seq<u8>) -> nat
    decreases b.len(),
{
    if valid_utf8(b) || b.len() == 0 {
        b.len()
    } else {
        valid_prefix_len(b.drop_last())
    }
}

/// The chunk of `CHUNK` bytes that starts at `pos`, padded with zero bytes
/// past the end of the input.
pub open spec fn window(bytes: Seq<u8>, pos: int) -> Seq<u8> {
    Seq::new(CHUNK as nat, |i: int| if pos + i < bytes.len() { bytes[pos + i] } else { 0u8 })
}

/// The characters still to come from a reader over `bytes` that stands at
/// `pos` with `buf` decoded but not yet handed out. A NUL character marks the
/// end of the input; a chunk with no valid UTF-8 prefix ends it too.
pub open spec fn chars_from(bytes: Seq<u8>, pos: int, buf: Seq<char>) -> Seq<char>
    decreases (if pos < bytes.len() { bytes.len() - pos } else { 0 }), buf.len(),
{
    if buf.len() > 0 {
        if buf[0] == '\0' {
            Seq::empty()
        } else {
            seq![buf[0]] + chars_from(bytes, pos, buf.drop_first())
        }
    } else if pos >= bytes.len() {
        Seq::empty()
    } else {
        let w = window(bytes, pos);
        let k = valid_prefix_len(w) as int;
        if k == 0 {
            Seq::empty()
        } else {
            let next = if pos + k < bytes.len() { pos + k } else { bytes.len() as int };
            chars_from(bytes, next, decode_utf8(w.subrange(0, k)))
        }
    }
}

/// The characters that a reader over `bytes` hands out, from the start.
pub open spec fn decoded_chars(bytes: Seq<u8>) -> Seq<char> {
    chars_from(bytes, 0, Seq::empty())
}

/// Relies on std::str::from_utf8: `Utf8Error::valid_up_to` is the largest
/// index up to which the input is valid UTF-8, and a valid input decodes to
/// the characters that it encodes.
#[verifier::external_body]
fn decode_utf8_prefix(b: &[u8]) -> (r: (Vec<char>, usize))
    ensures
        r.1 == valid_prefix_len(b@),
        r.0@ == decode_utf8(b@.subrange(0, r.1 as int)),
{
    let n = match std::str::from_utf8(b) {
        Ok(_) => b.len(),
        Err(e) => e.valid_up_to(),
    };
    let s = std::str::from_utf8(&b[..n]).unwrap_or_default();
    (s.chars().collect(), n)
}

/// Hands out the characters that a byte buffer encodes in UTF-8, decoding a
/// few bytes at a time.
pub struct JsonReader {
    bytes: Vec<u8>,
    pos: usize,
    buffer: Vec<char>,
}

impl JsonReader {
    pub closed spec fn wf(&self) -> bool {
        self.pos <= self.bytes.len()
    }

    /// The characters that this reader has still to hand out.
    pub closed spec fn rest(&self) -> Seq<char> {
        chars_from(self.bytes@, self.pos as int, self.buffer@)
    }

    /// A reader over `bytes`, at their start.
    pub fn new(bytes: Vec<u8>) -> (r: JsonReader)
        ensures
            r.wf(),
            r.rest() == decoded_chars(bytes@),
    {
        JsonReader { bytes, pos: 0, buffer: Vec::with_capacity(CHUNK) }
    }

    /// A reader over a copy of `bytes`, at their start.
    pub fn from_bytes(bytes: &[u8]) -> (r: JsonReader)
        ensures
            r.wf(),
            r.rest() == decoded_chars(bytes@),
    {
        let mut copy: Vec<u8> = Vec::with_capacity(bytes.len());
        let mut i: usize = 0;
        while i < bytes.len()
            invariant
                i <= bytes@.len(),
                copy@ == bytes@.subrange(0, i as int),
            decreases bytes@.len() - i,
        {
            copy.push(bytes[i]);
            i = i + 1;
        }
        assert(copy@ == bytes@);
        JsonReader::new(copy)
    }

    /// The next character, or `None` at the end of the input.
    pub fn next(&mut self) -> (r: Option<char>)
        requires
            old(self).wf(),
        ensures
            final(self).wf(),
            match r {
                None => old(self).rest() == Seq::<char>::empty(),
                Some(c) => old(self).rest() == seq![c] + final(self).rest(),
            },
    {
        if self.buffer.len() == 0 {
            let len = self.bytes.len();
            if self.pos >= len {
                return None;
            }
            let mut chunk: Vec<u8> = Vec::with_capacity(CHUNK);
            let mut i: usize = 0;
            while i < CHUNK
                invariant
                    self.pos < len == self.bytes@.len(),
                    i <= CHUNK,
                    chunk@ == window(self.bytes@, self.pos as int).subrange(0, i as int),
                decreases CHUNK - i,
            {
                if i < len - self.pos {
                    chunk.push(self.bytes[self.pos + i]);
                } else {
                    chunk.push(0u8);
                }
                i = i + 1;
            }
            assert(chunk@ == window(self.bytes@, self.pos as int));
            let (chars, k) = decode_utf8_prefix(chunk.as_slice());
            if k == 0 {
                return None;
            }
            proof {
                lemma_valid_prefix_len_bound(chunk@);
            }
            let ghost w = chunk@.subrange(0, k as int);
            let ghost start = self.pos as int;
            assert(chars@.len() > 0) by {
                assert(decode_utf8(w) == seq![decode_first_scalar(w) as char] + decode_utf8(
                    pop_first_scalar(w),
                ));
            }
            if k >= len - self.pos {
                self.pos = len;
            } else {
                self.pos = self.pos + k;
            }
            self.buffer = chars;
            assert(chars_from(self.bytes@, start, Seq::empty()) == chars_from(
                self.bytes@,
                self.pos as int,
                chars@,
            ));
        }
        let ghost before = self.buffer@;
        let c = self.buffer.remove(0);
        assert(before.drop_first() == self.buffer@);
        if c == '\0' {
            None
        } else {
            Some(c)
        }
    }
}

/// The length of the longest valid prefix is at most the length of the input.
proof fn lemma_valid_prefix_len_bound(b: Seq<u8>)
    ensures
        valid_prefix_len(b) <= b.len(),
        valid_utf8(b.subrange(0, valid_prefix_len(b) as int)),
    decreases b.len(),
{
    if valid_utf8(b) || b.len() == 0 {
        assert(b.subrange(0, b.len() as int) == b);
    } else {
        lemma_valid_prefix_len_bound(b.drop_last());
        assert(b.drop_last().subrange(0, valid_prefix_len(b) as int) == b.subrange(
            0,
            valid_prefix_len(b) as int,
        ));
    }
}

} // verus!
