//! Where text is written: a buffer that may be bounded, and then refuses
//! what does not fit.

use vstd::prelude::*;
use vstd::string::*;
use vstd::utf8::encode_utf8;

verus! {

/// The number of bytes that `text` takes in UTF-8.
pub closed spec fn utf8_len(text: Seq<char>) -> nat {
    encode_utf8(text).len()
}

/// The length is that of the UTF-8 encoding.
pub proof fn lemma_utf8_len(text: Seq<char>)
    ensures
        utf8_len(text) == encode_utf8(text).len(),
{
}

/// What a buffer holds.
pub struct Sink {
    /// The text written so far.
    pub text: Seq<char>,
    /// How many bytes the text may take, if that is bounded.
    pub max_len: Option<nat>,
}

impl Sink {
    /// Whether `text` fits with what is there.
    pub open spec fn fits(self, text: Seq<char>) -> bool {
        self.max_len matches Some(n) ==> utf8_len(self.text) + utf8_len(text) <= n
    }
}

/// A buffer that takes no more than `max_len` bytes, or any number.
pub struct FormatBuf {
    buf: String,
    max_len: Option<usize>,
}

impl View for FormatBuf {
    type V = Sink;

    closed spec fn view(&self) -> Sink {
        Sink {
            text: self.buf@,
            max_len: match self.max_len {
                Some(n) => Some(n as nat),
                None => None,
            },
        }
    }
}

impl FormatBuf {
    /// An empty buffer that takes up to `max_len` bytes.
    pub fn new(max_len: usize) -> (b: FormatBuf)
        ensures
            b@ == (Sink { text: Seq::empty(), max_len: Some(max_len as nat) }),
    {
        FormatBuf { buf: String::new(), max_len: Some(max_len) }
    }

    /// An empty buffer without a bound.
    pub fn unbounded() -> (b: FormatBuf)
        ensures
            b@ == (Sink { text: Seq::empty(), max_len: None }),
    {
        FormatBuf { buf: String::new(), max_len: None }
    }

    /// Writes `s` if it fits with what is there, and nothing of it
    /// otherwise.
    pub fn write_str(&mut self, s: &str) -> (r: Result<(), ()>)
        ensures
            final(self)@.max_len == old(self)@.max_len,
            r is Ok <==> old(self)@.fits(s@),
            r is Ok ==> final(self)@.text == old(self)@.text + s@,
            r is Err ==> final(self)@.text == old(self)@.text,
    {
        if let Some(max_len) = self.max_len {
            let held = self.buf.as_str().as_bytes();
            let more = s.as_bytes();
            proof {
                assert(held@ == encode_utf8(self.buf@));
                assert(more@ == encode_utf8(s@));
            }
            let fits = match held.len().checked_add(more.len()) {
                Some(total) => total <= max_len,
                None => false,
            };
            if !fits {
                return Err(());
            }
        }
        self.buf.append(s);
        Ok(())
    }

    /// The text written so far.
    pub fn as_str(&self) -> (s: &str)
        ensures
            s@ == self@.text,
    {
        self.buf.as_str()
    }

    /// The text written.
    pub fn into_string(self) -> (s: String)
        ensures
            s@ == self@.text,
    {
        self.buf
    }
}

} // verus!
