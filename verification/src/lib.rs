//! Demangling of compiler-emitted symbol names.
//!
//! A symbol is recognized by its envelope: an optional `.llvm.` tail is
//! dropped, then the symbol is tried as a legacy symbol, with an optional
//! suffix of dot-separated words behind its final `E`, and as a v0 symbol,
//! which finds the end of its path by itself. A symbol that is neither is
//! kept as it is and prints as it was given.

use crate::bytes::is_symbol_byte;
use crate::bytes::is_symbol_like;
use crate::bytes::symbol_byte;
use crate::sink::lemma_utf8_len;
use crate::sink::utf8_len;
use crate::text::byte_text;
use crate::text::push_bytes;
use vstd::prelude::*;
use vstd::slice::*;
use vstd::string::*;
use vstd::utf8::encode_utf8;

pub mod bytes;
pub mod legacy;
pub mod sink;
pub mod stream;
pub mod text;
pub mod v0;

verus! {

/// Whether `.llvm.` stands at `i`.
pub open spec fn is_llvm_at(s: Seq<u8>, i: int) -> bool {
    &&& 0 <= i
    &&& i + 6 <= s.len()
    &&& s[i] == '.' as u8
    &&& s[i + 1] == 'l' as u8
    &&& s[i + 2] == 'l' as u8
    &&& s[i + 3] == 'v' as u8
    &&& s[i + 4] == 'm' as u8
    &&& s[i + 5] == '.' as u8
}

/// The first position from `from` on at which `.llvm.` stands.
pub open spec fn find_llvm(s: Seq<u8>, from: int) -> Option<int>
    decreases s.len() - from,
{
    if from < 0 || from + 6 > s.len() {
        None
    } else if is_llvm_at(s, from) {
        Some(from)
    } else {
        find_llvm(s, from + 1)
    }
}

/// Whether `b` may stand behind `.llvm.`: an upper-case hex digit or `@`.
pub open spec fn is_llvm_byte(b: u8) -> bool {
    ('A' as u8 <= b <= 'F' as u8) || ('0' as u8 <= b <= '9' as u8) || b == '@' as u8
}

/// The symbol without the tail that link-time optimization appends: the
/// first `.llvm.` and everything behind it, if that is upper-case hex digits
/// and `@` only.
pub open spec fn strip_llvm(s: Seq<u8>) -> Seq<u8> {
    match find_llvm(s, 0) {
        Some(i) => if forall|k: int| i + 6 <= k < s.len() ==> is_llvm_byte(#[trigger] s[k]) {
            s.subrange(0, i)
        } else {
            s
        },
        None => s,
    }
}

/// Where the suffix of a legacy symbol begins, looking back from `i`, behind
/// which only suffix bytes stand: at the last `.` that follows an `E`, with
/// nothing but suffix bytes from there on.
pub open spec fn suffix_start(s: Seq<u8>, i: int) -> Option<int>
    decreases i,
{
    if i <= 0 || i > s.len() {
        None
    } else if i < s.len() && s[i] == '.' as u8 && s[i - 1] == 'E' as u8 {
        Some(i)
    } else if !is_symbol_byte(s[i - 1]) {
        None
    } else {
        suffix_start(s, i - 1)
    }
}

/// Whether `rest` may follow a symbol: nothing, or a `.` and further suffix
/// bytes.
pub open spec fn is_suffix(rest: Seq<u8>) -> bool {
    rest.len() == 0 || (rest[0] == '.' as u8 && is_symbol_like(rest, 0))
}

/// What a symbol was recognized as.
pub enum Envelope {
    /// A legacy symbol and the suffix behind its `E`.
    Legacy { symbol: legacy::Symbol, suffix: Seq<u8> },
    /// A v0 symbol without its prefix, and the suffix behind its path.
    V0 { inner: Seq<u8>, suffix: Seq<u8> },
    /// Neither.
    Unknown,
}

/// Recognizes the bytes of a symbol.
pub open spec fn envelope(s: Seq<u8>) -> Envelope {
    let s = strip_llvm(s);
    let head_len = match suffix_start(s, s.len() as int) {
        Some(i) => i,
        None => s.len() as int,
    };
    match legacy::recognize(s.subrange(0, head_len)) {
        Some(symbol) => Envelope::Legacy { symbol, suffix: s.subrange(head_len, s.len() as int) },
        None => match v0::recognize(s) {
            Ok((inner, rest)) => if is_suffix(rest) {
                Envelope::V0 { inner, suffix: rest }
            } else {
                Envelope::Unknown
            },
            Err(_) => Envelope::Unknown,
        },
    }
}

/// The text of a recognized symbol, followed by its suffix as it stands;
/// for a symbol that was not recognized, the `original`.
pub open spec fn envelope_text(env: Envelope, original: Seq<char>, alternate: bool) -> Seq<
    char,
> {
    match env {
        Envelope::Legacy { symbol, suffix } => legacy::symbol_text(symbol, alternate) + byte_text(
            suffix,
        ),
        Envelope::V0 { inner, suffix } => v0::grammar::symbol_text(inner, alternate) + byte_text(
            suffix,
        ),
        Envelope::Unknown => original,
    }
}

/// What the symbol `s` prints as.
pub open spec fn demangled_text(s: Seq<char>, alternate: bool) -> Seq<char> {
    envelope_text(envelope(encode_utf8(s)), s, alternate)
}

/// Whether a sink of `max_len` bytes refuses a write while the symbol is
/// written. Only a v0 symbol is written piece by piece.
pub open spec fn overflows(env: Envelope, alternate: bool, max_len: nat) -> bool {
    env matches Envelope::V0 { inner, .. } && v0::grammar::symbol_write(
        inner,
        alternate,
        Some(max_len),
    ).full()
}

/// [`find_llvm`] finds the first `.llvm.`: none stands before the position
/// it gives, and none at all where it gives none.
pub proof fn lemma_find_llvm_is_first(s: Seq<u8>, from: int)
    requires
        0 <= from,
    ensures
        match find_llvm(s, from) {
            Some(i) => from <= i && is_llvm_at(s, i) && forall|j: int|
                from <= j < i ==> !is_llvm_at(s, j),
            None => forall|j: int| from <= j ==> !is_llvm_at(s, j),
        },
    decreases s.len() - from,
{
    if from + 6 <= s.len() && !is_llvm_at(s, from) {
        lemma_find_llvm_is_first(s, from + 1);
    }
}

/// [`suffix_start`] finds the last `.` behind an `E` that has only suffix
/// bytes from it on: there is none further on, and none at all where it
/// gives none.
pub proof fn lemma_suffix_start_is_last(s: Seq<u8>, i: int)
    requires
        0 <= i <= s.len(),
        is_symbol_like(s, i),
        forall|j: int| i < j < s.len() ==> !(s[j - 1] == 'E' as u8 && #[trigger] s[j] == '.' as u8),
    ensures
        match suffix_start(s, i) {
            Some(k) => 0 < k < s.len() && s[k - 1] == 'E' as u8 && s[k] == '.' as u8
                && is_symbol_like(s, k) && forall|j: int|
                k < j < s.len() ==> !(s[j - 1] == 'E' as u8 && #[trigger] s[j] == '.' as u8),
            None => forall|j: int|
                0 < j < s.len() && s[j - 1] == 'E' as u8 && #[trigger] s[j] == '.' as u8
                    ==> !is_symbol_like(s, j),
        },
    decreases i,
{
    if i <= 0 {
    } else if i < s.len() && s[i] == '.' as u8 && s[i - 1] == 'E' as u8 {
    } else if !is_symbol_byte(s[i - 1]) {
        assert forall|j: int|
            0 < j < s.len() && s[j - 1] == 'E' as u8 && #[trigger] s[j] == '.' as u8
                implies !is_symbol_like(s, j) by {
            if j <= i - 1 {
                assert(!is_symbol_byte(s[i - 1]));
            }
        }
    } else {
        lemma_suffix_start_is_last(s, i - 1);
    }
}

/// A symbol that is not recognized prints as it was given.
pub proof fn lemma_unrecognized_is_verbatim(s: Seq<char>, alternate: bool)
    requires
        envelope(encode_utf8(s)) is Unknown,
    ensures
        demangled_text(s, alternate) == s,
{
}

/// Demangling what a symbol printed as gives the same text again, wherever
/// that text is itself not recognized.
pub proof fn lemma_idempotent_where_unrecognized(s: Seq<char>, first: bool, second: bool)
    requires
        envelope(encode_utf8(demangled_text(s, first))) is Unknown,
    ensures
        demangled_text(demangled_text(s, first), second) == demangled_text(s, first),
{
}

/// A legacy symbol whose last element is no hash prints the same in normal
/// and in alternate output.
pub proof fn lemma_legacy_without_hash(s: Seq<char>)
    requires
        envelope(encode_utf8(s)) matches Envelope::Legacy { symbol, .. }
            && !legacy::ends_in_hash(symbol.inner, 0, symbol.elements),
    ensures
        demangled_text(s, true) == demangled_text(s, false),
{
    if let Envelope::Legacy { symbol, suffix } = envelope(encode_utf8(s)) {
        legacy::lemma_alternate_without_hash(
            Seq::empty(),
            symbol.inner,
            0,
            symbol.elements,
            true,
        );
    }
}

/// A legacy symbol whose last element is a hash prints, in normal output,
/// as in alternate output with the hash added: behind `::`, unless the hash
/// is the only element, and in front of the suffix.
pub proof fn lemma_legacy_with_hash(s: Seq<char>)
    requires
        envelope(encode_utf8(s)) matches Envelope::Legacy { symbol, .. } && legacy::ends_in_hash(
            symbol.inner,
            0,
            symbol.elements,
        ),
    ensures
        envelope(encode_utf8(s)) matches Envelope::Legacy { symbol, suffix } && demangled_text(
            s,
            false,
        ) == legacy::symbol_text(symbol, true) + (if symbol.elements == 1 {
            Seq::<char>::empty()
        } else {
            "::"@
        }) + byte_text(legacy::last_element(symbol.inner, 0, symbol.elements)) + byte_text(
            suffix,
        ),
{
    if let Envelope::Legacy { symbol, suffix } = envelope(encode_utf8(s)) {
        legacy::lemma_alternate_cuts_hash(Seq::empty(), symbol.inner, 0, symbol.elements, true);
    }
}

/// No symbol is in both schemes: what begins a legacy symbol begins no v0
/// symbol.
pub proof fn lemma_schemes_exclude_each_other(s: Seq<u8>, head_len: int)
    requires
        0 <= head_len <= s.len(),
        legacy::recognize(s.subrange(0, head_len)) is Some,
    ensures
        v0::recognize(s) is Err,
{
    let head = s.subrange(0, head_len);
    assert(legacy::prefix_len(head) is Some);
    assert(head[0] == s[0] && head[1] == s[1] && head[2] == s[2]);
}

/// The mangling scheme of a recognized symbol.
enum DemangleStyle<'a> {
    Legacy(legacy::Demangle<'a>),
    V0(v0::Demangle<'a>),
}

/// A symbol, recognized or not, ready to be printed.
pub struct Demangle<'a> {
    style: Option<DemangleStyle<'a>>,
    original: &'a str,
    suffix: &'a [u8],
}

/// The error of [`try_demangle`]: the symbol is in no known mangling.
#[derive(Debug, Clone, Copy)]
pub struct TryDemangleError {}

impl<'a> Demangle<'a> {
    /// What the symbol was recognized as.
    pub closed spec fn envelope(&self) -> Envelope {
        match self.style {
            Some(DemangleStyle::Legacy(d)) => Envelope::Legacy { symbol: d@, suffix: self.suffix@ },
            Some(DemangleStyle::V0(d)) => Envelope::V0 { inner: d@, suffix: self.suffix@ },
            None => Envelope::Unknown,
        }
    }

    /// The symbol as it was given.
    pub closed spec fn original(&self) -> Seq<char> {
        self.original@
    }

    /// The symbol as it was given.
    pub fn as_str(&self) -> (s: &'a str)
        ensures
            s@ == self.original(),
    {
        self.original
    }

    /// Whether the symbol was recognized.
    pub fn is_recognized(&self) -> (r: bool)
        ensures
            r == !(self.envelope() is Unknown),
    {
        self.style.is_some()
    }

    /// The text of the symbol. Alternate output leaves out the hash of a
    /// legacy symbol and, in a v0 symbol, the disambiguators of crates and
    /// the types of constants. The suffix follows in both.
    pub fn display(&self, alternate: bool) -> (r: String)
        ensures
            r@ == envelope_text(self.envelope(), self.original(), alternate),
    {
        match &self.style {
            None => self.original.to_owned(),
            Some(DemangleStyle::Legacy(d)) => {
                let mut out = d.display(alternate);
                push_bytes(&mut out, self.suffix);
                out
            },
            Some(DemangleStyle::V0(d)) => {
                let mut out = d.display(alternate);
                push_bytes(&mut out, self.suffix);
                out
            },
        }
    }

    /// The text of the symbol if it takes no more than `max_len` bytes. The
    /// text of a v0 symbol, which may be far longer than the symbol, is
    /// given up as soon as a sink of that size refuses a write.
    pub fn display_within(&self, alternate: bool, max_len: usize) -> (r: Option<String>)
        ensures
            match r {
                Some(text) => text@ == envelope_text(self.envelope(), self.original(), alternate)
                    && utf8_len(text@) <= max_len && !overflows(
                    self.envelope(),
                    alternate,
                    max_len as nat,
                ),
                None => overflows(self.envelope(), alternate, max_len as nat) || utf8_len(
                    envelope_text(self.envelope(), self.original(), alternate),
                ) > max_len,
            },
    {
        let text = match &self.style {
            Some(DemangleStyle::V0(d)) => {
                match d.display_within(alternate, max_len) {
                    Some(mut out) => {
                        push_bytes(&mut out, self.suffix);
                        out
                    },
                    None => {
                        return None;
                    },
                }
            },
            _ => self.display(alternate),
        };
        proof {
            lemma_utf8_len(text@);
        }
        if text.as_str().as_bytes().len() <= max_len {
            Some(text)
        } else {
            None
        }
    }

    /// The text of the symbol in normal output.
    pub fn to_string(&self) -> (r: String)
        ensures
            r@ == envelope_text(self.envelope(), self.original(), false),
    {
        self.display(false)
    }

    /// The text of the symbol in alternate output.
    pub fn to_string_alternate(&self) -> (r: String)
        ensures
            r@ == envelope_text(self.envelope(), self.original(), true),
    {
        self.display(true)
    }
}

/// Whether `.llvm.` stands at `i`.
fn llvm_at(s: &[u8], i: usize) -> (r: bool)
    requires
        i + 6 <= s@.len(),
    ensures
        r == is_llvm_at(s@, i as int),
{
    s[i] == '.' as u8 && s[i + 1] == 'l' as u8 && s[i + 2] == 'l' as u8 && s[i + 3] == 'v' as u8
        && s[i + 4] == 'm' as u8 && s[i + 5] == '.' as u8
}

/// The bytes without their `.llvm.` tail.
#[verifier::loop_isolation(false)]
fn strip_llvm_tail<'a>(s: &'a [u8]) -> (r: &'a [u8])
    ensures
        r@ == strip_llvm(s@),
{
    let n = s.len();
    if n < 6 {
        return s;
    }
    let mut i: usize = 0;
    while i <= n - 6 && !llvm_at(s, i)
        invariant
            i <= n - 5,
            find_llvm(s@, i as int) == find_llvm(s@, 0),
        decreases n - i,
    {
        i += 1;
    }
    if i > n - 6 {
        return s;
    }
    let mut k: usize = i + 6;
    while k < n
        invariant
            i + 6 <= k <= n,
            forall|j: int| i + 6 <= j < k ==> is_llvm_byte(#[trigger] s@[j]),
        decreases n - k,
    {
        let b = s[k];
        if !((b >= 'A' as u8 && b <= 'F' as u8) || (b >= '0' as u8 && b <= '9' as u8) || b
            == '@' as u8) {
            return s;
        }
        k += 1;
    }
    slice_subrange(s, 0, i)
}

/// Where the suffix of a legacy symbol begins, or the length of `s` if it
/// has none.
fn legacy_head_len(s: &[u8]) -> (r: usize)
    ensures
        r <= s@.len(),
        r == match suffix_start(s@, s@.len() as int) {
            Some(i) => i,
            None => s@.len() as int,
        },
{
    let n = s.len();
    let mut i: usize = n;
    while i > 0
        invariant
            i <= n,
            n == s@.len(),
            suffix_start(s@, i as int) == suffix_start(s@, n as int),
        decreases i,
    {
        if i < n && s[i] == '.' as u8 && s[i - 1] == 'E' as u8 {
            return i;
        }
        if !symbol_byte(s[i - 1]) {
            return n;
        }
        i -= 1;
    }
    n
}

/// Whether `rest` may follow a symbol.
fn check_suffix(rest: &[u8]) -> (r: bool)
    ensures
        r == is_suffix(rest@),
{
    let n = rest.len();
    if n == 0 {
        return true;
    }
    if rest[0] != '.' as u8 {
        return false;
    }
    let mut i: usize = 0;
    while i < n
        invariant
            i <= n,
            n == rest@.len(),
            forall|k: int| 0 <= k < i ==> is_symbol_byte(#[trigger] rest@[k]),
        decreases n - i,
    {
        if !symbol_byte(rest[i]) {
            return false;
        }
        i += 1;
    }
    true
}

/// A symbol's scheme, if it was recognized, and its suffix.
struct Recognized<'a> {
    style: Option<DemangleStyle<'a>>,
    suffix: &'a [u8],
}

impl<'a> Recognized<'a> {
    spec fn envelope(&self) -> Envelope {
        match self.style {
            Some(DemangleStyle::Legacy(d)) => Envelope::Legacy { symbol: d@, suffix: self.suffix@ },
            Some(DemangleStyle::V0(d)) => Envelope::V0 { inner: d@, suffix: self.suffix@ },
            None => Envelope::Unknown,
        }
    }

    /// The text of a symbol that was recognized.
    fn display(&self, alternate: bool) -> (r: Option<String>)
        ensures
            self.envelope() is Unknown ==> r is None,
            !(self.envelope() is Unknown) ==> (r matches Some(text) && text@ == envelope_text(
                self.envelope(),
                Seq::empty(),
                alternate,
            )),
    {
        match &self.style {
            None => None,
            Some(DemangleStyle::Legacy(d)) => {
                let mut out = d.display(alternate);
                push_bytes(&mut out, self.suffix);
                Some(out)
            },
            Some(DemangleStyle::V0(d)) => {
                let mut out = d.display(alternate);
                push_bytes(&mut out, self.suffix);
                Some(out)
            },
        }
    }
}

/// Recognizes the bytes of a symbol.
fn recognize<'a>(bytes: &'a [u8]) -> (r: Recognized<'a>)
    ensures
        r.envelope() == envelope(bytes@),
{
    let stripped = strip_llvm_tail(bytes);
    let head_len = legacy_head_len(stripped);
    let none = slice_subrange(bytes, 0, 0);
    match legacy::demangle_bytes(slice_subrange(stripped, 0, head_len)) {
        Ok(d) => Recognized {
            style: Some(DemangleStyle::Legacy(d)),
            suffix: slice_subrange(stripped, head_len, stripped.len()),
        },
        Err(_) => match v0::demangle_bytes(stripped) {
            Ok((d, rest)) => {
                if check_suffix(rest) {
                    Recognized { style: Some(DemangleStyle::V0(d)), suffix: rest }
                } else {
                    Recognized { style: None, suffix: none }
                }
            },
            Err(_) => Recognized { style: None, suffix: none },
        },
    }
}

/// Recognizes a symbol. This always succeeds: a symbol in no known mangling
/// prints as it was given.
pub fn demangle<'a>(s: &'a str) -> (d: Demangle<'a>)
    ensures
        d.original() == s@,
        d.envelope() == envelope(s.spec_bytes()),
{
    let r = recognize(s.as_bytes());
    Demangle { style: r.style, original: s, suffix: r.suffix }
}

/// The text of the symbol that the bytes `s` are, if they are one.
pub fn try_demangle_bytes(s: &[u8], alternate: bool) -> (r: Option<String>)
    ensures
        envelope(s@) is Unknown ==> r is None,
        !(envelope(s@) is Unknown) ==> (r matches Some(text) && text@ == envelope_text(
            envelope(s@),
            Seq::empty(),
            alternate,
        )),
{
    recognize(s).display(alternate)
}

/// Recognizes a symbol, or fails where [`demangle`] would keep it as it is.
pub fn try_demangle<'a>(s: &'a str) -> (r: Result<Demangle<'a>, TryDemangleError>)
    ensures
        match r {
            Ok(d) => d.original() == s@ && d.envelope() == envelope(s.spec_bytes()) && !(
            d.envelope() is Unknown),
            Err(_) => envelope(s.spec_bytes()) is Unknown,
        },
{
    let sym = demangle(s);
    if sym.is_recognized() {
        Ok(sym)
    } else {
        Err(TryDemangleError {  })
    }
}

} // verus!
