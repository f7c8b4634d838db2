//! The recursive-descent printer of the v0 grammar.
//!
//! A [`Printer`] walks a symbol and writes what it stands for. With its
//! output detached it only reads, which serves to check a symbol and to pass
//! over the parts that are not written. Its output may be bounded; a write
//! that the sink refuses ends the walk. Every production computes the state
//! that [`grammar`](crate::v0::grammar) gives for it, leaves the depth and
//! the count of bound lifetimes as it found them, and never moves the cursor
//! back.

use crate::sink::FormatBuf;
use crate::text::byte_text;
use crate::text::char_debug;
use crate::text::push_bytes;
use crate::text::push_radix;
use crate::text::radix_text;
use crate::v0::grammar;
use crate::v0::grammar::step;
use crate::v0::grammar::Backref;
use crate::v0::grammar::Binder;
use crate::v0::grammar::ListItem;
use crate::v0::grammar::Mode;
use crate::v0::grammar::State;
use crate::v0::grammar::Stop;
use crate::v0::parser;
use crate::v0::parser::Ident;
use crate::v0::parser::Parser;
use crate::v0::parser::Target;
use crate::v0::punycode::ident_text;
use crate::v0::ParseError;
use crate::v0::MAX_DEPTH;
use vstd::prelude::*;
use vstd::string::*;

verus! {

/// The name of a basic type.
pub fn basic_type(tag: u8) -> (r: Option<&'static str>)
    ensures
        match r {
            Some(name) => grammar::basic_type(tag) == Some(name@),
            None => grammar::basic_type(tag) is None,
        },
{
    if tag == 'b' as u8 {
        Some("bool")
    } else if tag == 'c' as u8 {
        Some("char")
    } else if tag == 'e' as u8 {
        Some("str")
    } else if tag == 'u' as u8 {
        Some("()")
    } else if tag == 'a' as u8 {
        Some("i8")
    } else if tag == 's' as u8 {
        Some("i16")
    } else if tag == 'l' as u8 {
        Some("i32")
    } else if tag == 'x' as u8 {
        Some("i64")
    } else if tag == 'n' as u8 {
        Some("i128")
    } else if tag == 'i' as u8 {
        Some("isize")
    } else if tag == 'h' as u8 {
        Some("u8")
    } else if tag == 't' as u8 {
        Some("u16")
    } else if tag == 'm' as u8 {
        Some("u32")
    } else if tag == 'y' as u8 {
        Some("u64")
    } else if tag == 'o' as u8 {
        Some("u128")
    } else if tag == 'j' as u8 {
        Some("usize")
    } else if tag == 'f' as u8 {
        Some("f32")
    } else if tag == 'd' as u8 {
        Some("f64")
    } else if tag == 'z' as u8 {
        Some("!")
    } else if tag == 'p' as u8 {
        Some("_")
    } else if tag == 'v' as u8 {
        Some("...")
    } else {
        None
    }
}

/// Sixteen to the power `n`.
spec fn pow16(n: nat) -> nat
    decreases n,
{
    if n == 0 {
        1
    } else {
        16 * pow16((n - 1) as nat)
    }
}

proof fn lemma_pow16_increases(i: nat, j: nat)
    requires
        i <= j,
    ensures
        pow16(i) <= pow16(j),
    decreases j,
{
    if i < j {
        lemma_pow16_increases(i, (j - 1) as nat);
    }
}

proof fn lemma_pow16_values()
    ensures
        pow16(8) == 0x1_0000_0000,
        pow16(16) == 0x1_0000_0000_0000_0000,
{
    reveal_with_fuel(pow16, 17);
}

/// The value of up to 16 hex digits.
fn hex_to_u64(hex: &[u8]) -> (v: u64)
    requires
        hex@.len() <= 16,
        forall|i: int| 0 <= i < hex@.len() ==> parser::is_hex_nibble(#[trigger] hex@[i]),
    ensures
        v == grammar::hex_value(hex@),
        v < pow16(hex@.len()),
{
    let mut v: u64 = 0;
    let mut i: usize = 0;
    while i < hex.len()
        invariant
            i <= hex@.len() <= 16,
            forall|k: int| 0 <= k < hex@.len() ==> parser::is_hex_nibble(#[trigger] hex@[k]),
            v == grammar::hex_value(hex@.subrange(0, i as int)),
            v < pow16(i as nat),
        decreases hex@.len() - i,
    {
        let b = hex[i];
        let d: u64 = if b <= '9' as u8 {
            (b - '0' as u8) as u64
        } else {
            (b - 'a' as u8) as u64 + 10
        };
        proof {
            assert(parser::is_hex_nibble(hex@[i as int]));
            lemma_pow16_increases((i + 1) as nat, 16);
            lemma_pow16_values();
            let upto = hex@.subrange(0, i + 1);
            assert(upto.drop_last() =~= hex@.subrange(0, i as int));
            assert(upto.last() == b);
        }
        v = v * 16 + d;
        i += 1;
    }
    proof {
        assert(hex@.subrange(0, i as int) =~= hex@);
    }
    v
}

/// A full sink takes no lifetimes of a binder.
proof fn lemma_binder_lifetimes_stopped(m: Mode, bound: nat, st: State, i: nat, n: nat)
    requires
        st.full(),
    ensures
        grammar::binder_lifetimes(m, bound, st, i, n) == st,
    decreases n - i,
{
    if i < n {
        lemma_binder_lifetimes_stopped(m, bound, st, i + 1, n);
    }
}

/// The ABI of a function pointer.
#[derive(Clone, Copy)]
pub enum Abi<'s> {
    /// None is named.
    Rust,
    /// The ABI `C`.
    C,
    /// An ABI named by an identifier.
    Named(&'s [u8]),
}

impl<'s> Abi<'s> {
    /// The ABI's name as it is written, if it has one.
    pub open spec fn text(self) -> Option<Seq<char>> {
        match self {
            Abi::Rust => None,
            Abi::C => Some("C"@),
            Abi::Named(name) => Some(grammar::abi_text(name@)),
        }
    }
}

/// The printer: a cursor, or why reading stopped, and the output.
pub struct Printer<'s> {
    /// The cursor; or the first error met; or that the sink refused a
    /// write, after which nothing is read or written.
    pub parser: Result<Parser<'s>, Stop>,
    /// Where text is written; `None` while not writing.
    pub out: Option<FormatBuf>,
    /// Whether disambiguators and the types of constants are left out.
    pub alternate: bool,
    /// How many lifetimes the binders around the cursor bind. It is kept
    /// only while writing.
    pub bound_lifetime_depth: u32,
}

impl<'s> Printer<'s> {
    /// The cursor, if there is one, is well formed.
    pub open spec fn wf(&self) -> bool {
        self.parser matches Ok(p) ==> p.wf()
    }

    /// The symbol being read; nothing is left of it after an error.
    pub open spec fn sym(&self) -> Seq<u8> {
        match self.parser {
            Ok(p) => p.sym@,
            Err(_) => Seq::empty(),
        }
    }

    /// The cursor's depth.
    pub open spec fn depth(&self) -> nat {
        match self.parser {
            Ok(p) => p.depth as nat,
            Err(_) => 0,
        }
    }

    /// The number of lifetimes bound around the cursor.
    pub open spec fn bound(&self) -> nat {
        self.bound_lifetime_depth as nat
    }

    /// Whether the printer writes, and how.
    pub open spec fn mode(&self) -> Mode {
        Mode {
            printing: self.out is Some,
            alternate: self.alternate,
            limit: match self.out {
                Some(sink) => sink@.max_len,
                None => None,
            },
        }
    }

    /// Whether the sink has refused a write.
    pub open spec fn full(&self) -> bool {
        self.parser == Err::<Parser<'s>, Stop>(Stop::Full)
    }

    /// The position, or why reading stopped, and the text written so far.
    pub open spec fn state(&self) -> State {
        State {
            pos: match self.parser {
                Ok(p) => Ok(p.next as int),
                Err(e) => Err(e),
            },
            out: match self.out {
                Some(sink) => sink@.text,
                None => Seq::empty(),
            },
        }
    }

    /// How many productions may still nest inside the next one; nothing
    /// nests after an error.
    pub open spec fn levels(&self) -> nat {
        match self.parser {
            Ok(p) => grammar::levels_left(p.depth as nat) + 1,
            Err(_) => 0,
        }
    }

    /// `self` writes as `before` did, under as many bound lifetimes; and if
    /// it still reads, it reads the same symbol at the same depth, no
    /// earlier than `before`.
    pub open spec fn keeps(&self, before: Printer) -> bool {
        &&& self.wf()
        &&& self.mode() == before.mode()
        &&& self.bound_lifetime_depth == before.bound_lifetime_depth
        &&& self.parser matches Ok(p) ==> before.parser matches Ok(q) && p.sym@ == q.sym@
            && p.depth == q.depth && p.next >= q.next
    }

    /// If `self` still reads, it has read past where `before` stood.
    pub open spec fn moved(&self, before: Printer) -> bool {
        self.parser matches Ok(p) ==> before.parser matches Ok(q) && p.next > q.next
    }

    /// `self` differs from `before` in the text written at most, unless the
    /// sink refused it.
    pub open spec fn only_wrote(&self, before: Printer) -> bool {
        &&& self.parser == before.parser || self.full()
        &&& self.mode() == before.mode()
        &&& self.bound_lifetime_depth == before.bound_lifetime_depth
    }

    /// A printer at the start of `sym` that writes all of the text.
    pub fn new(sym: &'s [u8], alternate: bool) -> (p: Printer<'s>)
        ensures
            p.wf(),
            p.sym() == sym@,
            p.depth() == 0,
            p.bound() == 0,
            p.mode() == Mode::writing(alternate),
            p.state() == State::start(),
    {
        Printer {
            parser: Ok(Parser::new(sym)),
            out: Some(FormatBuf::unbounded()),
            alternate,
            bound_lifetime_depth: 0,
        }
    }

    /// A printer at the start of `sym` that writes up to `max_len` bytes.
    pub fn bounded(sym: &'s [u8], alternate: bool, max_len: usize) -> (p: Printer<'s>)
        ensures
            p.wf(),
            p.sym() == sym@,
            p.depth() == 0,
            p.bound() == 0,
            p.mode() == (Mode { printing: true, alternate, limit: Some(max_len as nat) }),
            p.state() == State::start(),
    {
        Printer {
            parser: Ok(Parser::new(sym)),
            out: Some(FormatBuf::new(max_len)),
            alternate,
            bound_lifetime_depth: 0,
        }
    }

    /// A printer that only reads, from `parser` on.
    pub fn reader(parser: Parser<'s>) -> (p: Printer<'s>)
        requires
            parser.wf(),
        ensures
            p.wf(),
            p.parser == Ok::<Parser<'s>, Stop>(parser),
            p.bound() == 0,
            p.mode() == Mode::reading(),
            p.state() == (State { pos: Ok(parser.next as int), out: Seq::empty() }),
    {
        Printer { parser: Ok(parser), out: None, alternate: false, bound_lifetime_depth: 0 }
    }

    /// Whether the sink has refused a write.
    pub fn is_full(&self) -> (r: bool)
        ensures
            r == self.full(),
            r == self.state().full(),
    {
        match self.parser {
            Err(Stop::Full) => true,
            _ => false,
        }
    }

    /// Writes `s`, unless the output is detached. A write that the sink
    /// refuses ends the walk.
    pub fn print(&mut self, s: &str)
        requires
            old(self).wf(),
        ensures
            final(self).wf(),
            final(self).only_wrote(*old(self)),
            final(self).state() == old(self).state().emit(old(self).mode(), s@),
    {
        if self.is_full() {
            return ;
        }
        let refused = match &mut self.out {
            Some(out) => out.write_str(s).is_err(),
            None => false,
        };
        if refused {
            self.parser = Err(Stop::Full);
        }
    }

    /// Writes one character.
    fn print_char(&mut self, c: char)
        requires
            old(self).wf(),
        ensures
            final(self).wf(),
            final(self).only_wrote(*old(self)),
            final(self).state() == old(self).state().emit(old(self).mode(), seq![c]),
    {
        if self.out.is_some() {
            let mut text = String::new();
            text.push(c);
            proof {
                assert(text@ =~= seq![c]);
            }
            self.print(text.as_str());
        }
    }

    /// Writes bytes as characters.
    fn print_bytes(&mut self, bytes: &[u8])
        requires
            old(self).wf(),
        ensures
            final(self).wf(),
            final(self).only_wrote(*old(self)),
            final(self).state() == old(self).state().emit(old(self).mode(), byte_text(bytes@)),
    {
        if self.out.is_some() {
            let mut text = String::new();
            push_bytes(&mut text, bytes);
            proof {
                assert(text@ =~= byte_text(bytes@));
            }
            self.print(text.as_str());
        }
    }

    /// Writes an identifier.
    fn print_ident(&mut self, name: &Ident<'s>)
        requires
            old(self).wf(),
        ensures
            final(self).wf(),
            final(self).only_wrote(*old(self)),
            final(self).state() == old(self).state().emit(old(self).mode(), ident_text(name@)),
    {
        if self.out.is_some() {
            let mut text = String::new();
            name.print(&mut text);
            proof {
                assert(text@ =~= ident_text(name@));
            }
            self.print(text.as_str());
        }
    }

    /// Writes a number, in hexadecimal where `hex` is set, else in decimal.
    fn print_u64(&mut self, n: u64, hex: bool)
        requires
            old(self).wf(),
        ensures
            final(self).wf(),
            final(self).only_wrote(*old(self)),
            final(self).state() == old(self).state().emit(
                old(self).mode(),
                radix_text(n as nat, hex),
            ),
    {
        if self.out.is_some() {
            let mut text = String::new();
            push_radix(&mut text, n, hex);
            proof {
                assert(text@ =~= radix_text(n as nat, hex));
            }
            self.print(text.as_str());
        }
    }

    /// Writes the name of an ABI, a `-` for each `_`.
    fn print_abi(&mut self, abi: &[u8])
        requires
            old(self).wf(),
        ensures
            final(self).wf(),
            final(self).only_wrote(*old(self)),
            final(self).state() == old(self).state().emit(
                old(self).mode(),
                grammar::abi_text(abi@),
            ),
    {
        if self.out.is_some() {
            let mut text = String::new();
            let mut i: usize = 0;
            while i < abi.len()
                invariant
                    i <= abi@.len(),
                    text@ == grammar::abi_text(abi@.subrange(0, i as int)),
                decreases abi@.len() - i,
            {
                let b = abi[i];
                proof {
                    assert(grammar::abi_text(abi@.subrange(0, i + 1)) =~= grammar::abi_text(
                        abi@.subrange(0, i as int),
                    ).push(
                        if b == '_' as u8 {
                            '-'
                        } else {
                            b as char
                        },
                    ));
                }
                if b == '_' as u8 {
                    text.push('-');
                } else {
                    text.push(b as char);
                }
                i += 1;
            }
            proof {
                assert(abi@.subrange(0, i as int) =~= abi@);
            }
            self.print(text.as_str());
        }
    }

    /// Meets the error `e`: writes its message and stops reading.
    fn fail(&mut self, e: ParseError)
        requires
            old(self).wf(),
        ensures
            final(self).keeps(*old(self)),
            final(self).parser is Err,
            final(self).state() == old(self).state().fail(old(self).mode(), e),
    {
        self.print(e.message());
        if !self.is_full() {
            self.parser = Err(Stop::Parse(e));
        }
    }

    /// Reads `b` if it comes next, and says whether it did; never after an
    /// error.
    pub fn eat(&mut self, b: u8) -> (r: bool)
        requires
            old(self).wf(),
        ensures
            final(self).keeps(*old(self)),
            r == old(self).state().sees(old(self).sym(), b),
            r ==> final(self).state() == old(self).state().at(old(self).state().next() + 1),
            r ==> final(self).moved(*old(self)),
            !r ==> final(self).parser == old(self).parser && final(self).state() == old(self).state(),
    {
        match self.parser {
            Ok(mut p) => {
                let r = p.eat(b);
                if r {
                    self.parser = Ok(p);
                }
                r
            },
            Err(_) => false,
        }
    }

    /// Enters a production and says whether that was possible; passing
    /// `MAX_DEPTH` is an error.
    fn enter(&mut self) -> (r: bool)
        requires
            old(self).wf(),
        ensures
            final(self).wf(),
            final(self).mode() == old(self).mode(),
            final(self).bound_lifetime_depth == old(self).bound_lifetime_depth,
            (if r {
                Some(())
            } else {
                None
            }, final(self).state()) == step(
                old(self).state(),
                old(self).mode(),
                grammar::enter(old(self).depth(), old(self).state().next()),
            ),
            r ==> final(self).parser is Ok && final(self).sym() == old(self).sym() && final(self).depth() == old(self).depth() + 1 && final(self).levels() + 1 == old(self).levels(),
            !r ==> final(self).parser is Err,
    {
        match self.parser {
            Ok(mut p) => match p.push_depth() {
                Ok(()) => {
                    self.parser = Ok(p);
                    true
                },
                Err(e) => {
                    self.fail(e);
                    false
                },
            },
            Err(_) => {
                self.print("?");
                false
            },
        }
    }

    /// Leaves a production; nothing is left to leave after an error.
    pub fn pop_depth(&mut self)
        requires
            old(self).wf(),
            old(self).parser is Ok ==> old(self).depth() > 0,
        ensures
            final(self).wf(),
            final(self).mode() == old(self).mode(),
            final(self).bound_lifetime_depth == old(self).bound_lifetime_depth,
            final(self).state() == old(self).state(),
            final(self).sym() == old(self).sym(),
            old(self).parser is Ok ==> final(self).parser is Ok && final(self).depth() + 1 == old(self).depth(),
    {
        match self.parser {
            Ok(mut p) => {
                p.pop_depth();
                self.parser = Ok(p);
            },
            Err(_) => {},
        }
    }

    /// Reads one byte.
    fn read_next(&mut self) -> (r: Option<u8>)
        requires
            old(self).wf(),
        ensures
            final(self).keeps(*old(self)),
            (r, final(self).state()) == step(
                old(self).state(),
                old(self).mode(),
                parser::next_byte(old(self).sym(), old(self).state().next()),
            ),
            r is Some ==> final(self).moved(*old(self)),
            r is None ==> final(self).parser is Err,
    {
        match self.parser {
            Ok(mut p) => match p.next() {
                Ok(v) => {
                    self.parser = Ok(p);
                    Some(v)
                },
                Err(e) => {
                    self.fail(e);
                    None
                },
            },
            Err(_) => {
                self.print("?");
                None
            },
        }
    }

    /// Reads a base-62 integer.
    fn read_integer_62(&mut self) -> (r: Option<u64>)
        requires
            old(self).wf(),
        ensures
            final(self).keeps(*old(self)),
            (r, final(self).state()) == step(
                old(self).state(),
                old(self).mode(),
                parser::integer_62(old(self).sym(), old(self).state().next()),
            ),
            r is Some ==> final(self).moved(*old(self)),
            r is None ==> final(self).parser is Err,
    {
        match self.parser {
            Ok(mut p) => match p.integer_62() {
                Ok(v) => {
                    self.parser = Ok(p);
                    Some(v)
                },
                Err(e) => {
                    self.fail(e);
                    None
                },
            },
            Err(_) => {
                self.print("?");
                None
            },
        }
    }

    /// Reads an integer announced by `tag`.
    fn read_opt_integer_62(&mut self, tag: u8) -> (r: Option<u64>)
        requires
            old(self).wf(),
        ensures
            final(self).keeps(*old(self)),
            (r, final(self).state()) == step(
                old(self).state(),
                old(self).mode(),
                parser::opt_integer_62(old(self).sym(), old(self).state().next(), tag),
            ),
            r is None ==> final(self).parser is Err,
    {
        match self.parser {
            Ok(mut p) => match p.opt_integer_62(tag) {
                Ok(v) => {
                    self.parser = Ok(p);
                    Some(v)
                },
                Err(e) => {
                    self.fail(e);
                    None
                },
            },
            Err(_) => {
                self.print("?");
                None
            },
        }
    }

    /// Reads a disambiguator.
    fn read_disambiguator(&mut self) -> (r: Option<u64>)
        requires
            old(self).wf(),
        ensures
            final(self).keeps(*old(self)),
            (r, final(self).state()) == step(
                old(self).state(),
                old(self).mode(),
                parser::disambiguator(old(self).sym(), old(self).state().next()),
            ),
            r is None ==> final(self).parser is Err,
    {
        self.read_opt_integer_62('s' as u8)
    }

    /// Reads a namespace.
    fn read_namespace(&mut self) -> (r: Option<Option<char>>)
        requires
            old(self).wf(),
        ensures
            final(self).keeps(*old(self)),
            (r, final(self).state()) == step(
                old(self).state(),
                old(self).mode(),
                parser::namespace(old(self).sym(), old(self).state().next()),
            ),
            r is None ==> final(self).parser is Err,
    {
        match self.parser {
            Ok(mut p) => match p.namespace() {
                Ok(v) => {
                    self.parser = Ok(p);
                    Some(v)
                },
                Err(e) => {
                    self.fail(e);
                    None
                },
            },
            Err(_) => {
                self.print("?");
                None
            },
        }
    }

    /// Reads an identifier.
    fn read_ident(&mut self) -> (r: Option<Ident<'s>>)
        requires
            old(self).wf(),
        ensures
            final(self).keeps(*old(self)),
            (match r {
                Some(id) => Some(id@),
                None => None,
            }, final(self).state()) == step(
                old(self).state(),
                old(self).mode(),
                parser::ident(old(self).sym(), old(self).state().next()),
            ),
            r is None ==> final(self).parser is Err,
    {
        match self.parser {
            Ok(mut p) => match p.ident() {
                Ok(v) => {
                    self.parser = Ok(p);
                    Some(v)
                },
                Err(e) => {
                    self.fail(e);
                    None
                },
            },
            Err(_) => {
                self.print("?");
                None
            },
        }
    }

    /// Reads a run of hex digits.
    fn read_hex_nibbles(&mut self) -> (r: Option<&'s [u8]>)
        requires
            old(self).wf(),
        ensures
            final(self).keeps(*old(self)),
            (match r {
                Some(hex) => Some(hex@),
                None => None,
            }, final(self).state()) == step(
                old(self).state(),
                old(self).mode(),
                parser::hex_nibbles(old(self).sym(), old(self).state().next()),
            ),
            r matches Some(hex) ==> forall|i: int|
                0 <= i < hex@.len() ==> parser::is_hex_nibble(#[trigger] hex@[i]),
            r is None ==> final(self).parser is Err,
    {
        match self.parser {
            Ok(mut p) => match p.hex_nibbles() {
                Ok(v) => {
                    self.parser = Ok(p);
                    Some(v)
                },
                Err(e) => {
                    self.fail(e);
                    None
                },
            },
            Err(_) => {
                self.print("?");
                None
            },
        }
    }

    /// Reads the offset of a backreference and returns the cursor to
    /// continue with at its target.
    fn read_backref(&mut self) -> (r: Option<Parser<'s>>)
        requires
            old(self).wf(),
            old(self).parser matches Ok(p) ==> p.next >= 1,
        ensures
            final(self).keeps(*old(self)),
            (match r {
                Some(p) => Some(Target { next: p.next as int, depth: p.depth as nat }),
                None => None,
            }, final(self).state()) == step(
                old(self).state(),
                old(self).mode(),
                parser::backref(old(self).sym(), old(self).state().next(), old(self).depth()),
            ),
            r matches Some(p) ==> p.wf() && p.sym@ == old(self).sym() && p.depth == old(self).depth() + 1 && old(self).depth() < MAX_DEPTH && final(self).moved(*old(self))
                && final(self).parser is Ok,
            r is None ==> final(self).parser is Err,
    {
        match self.parser {
            Ok(mut p) => match p.backref() {
                Ok(v) => {
                    self.parser = Ok(p);
                    Some(v)
                },
                Err(e) => {
                    self.fail(e);
                    None
                },
            },
            Err(_) => {
                self.print("?");
                None
            },
        }
    }

    /// Reads a path with the output detached.
    pub fn skipping_printing(&mut self)
        requires
            old(self).wf(),
        ensures
            final(self).keeps(*old(self)),
            final(self).state() == (State {
                pos: grammar::print_path(
                    old(self).sym(),
                    old(self).mode().skipping(),
                    old(self).depth(),
                    old(self).bound(),
                    State { pos: old(self).state().pos, out: Seq::empty() },
                    false,
                ).pos,
                out: old(self).state().out,
            }),
        decreases old(self).levels(), 1nat,
    {
        let orig_out = self.out.take();
        self.print_path(false);
        self.out = orig_out;
    }

    /// Reads a backreference, the `B` having been read, and prints its
    /// target; while not writing, the target is passed over. The result is
    /// that of [`Printer::print_path_maybe_open_generics`] where that is the
    /// target, else `false`.
    pub fn print_backref(&mut self, target: Backref) -> (open: bool)
        requires
            old(self).wf(),
            old(self).parser matches Ok(p) ==> p.next >= 1,
        ensures
            final(self).keeps(*old(self)),
            (final(self).state(), open) == grammar::print_backref(
                old(self).sym(),
                old(self).mode(),
                old(self).depth(),
                old(self).bound(),
                old(self).state(),
                target,
            ),
            final(self).moved(*old(self)),
        decreases old(self).levels(), 1nat,
    {
        let backref_parser = match self.read_backref() {
            Some(p) => p,
            None => {
                return false;
            },
        };
        if self.out.is_none() {
            return false;
        }
        let orig_parser = self.parser;
        self.parser = Ok(backref_parser);
        let open = match target {
            Backref::Path { in_value } => {
                self.print_path(in_value);
                false
            },
            Backref::Type => {
                self.print_type();
                false
            },
            Backref::Const => {
                self.print_const();
                false
            },
            Backref::OpenPath => self.print_path_maybe_open_generics(),
        };
        if !self.is_full() {
            self.parser = orig_parser;
        }
        open
    }

    /// Writes a lifetime by its index; an index beyond the binders in scope
    /// is an error. Does nothing while not writing.
    pub fn print_lifetime_from_index(&mut self, lt: u64)
        requires
            old(self).wf(),
        ensures
            final(self).keeps(*old(self)),
            final(self).state() == grammar::print_lifetime(
                old(self).mode(),
                old(self).bound(),
                old(self).state(),
                lt,
            ),
            old(self).parser is Ok && (lt == 0 || lt <= old(self).bound()) ==> final(self).parser
                == old(self).parser || final(self).full(),
    {
        if self.out.is_none() {
            return ;
        }
        self.print("'");
        if lt == 0 {
            self.print("_");
            return ;
        }
        let bound: u64 = self.bound_lifetime_depth as u64;
        if lt > bound {
            self.fail(ParseError::Invalid);
            return ;
        }
        let depth: u64 = bound - lt;
        if depth < 26 {
            let c = ('a' as u8 + depth as u8) as char;
            self.print_char(c);
        } else {
            self.print("_");
            self.print_u64(depth, false);
        }
    }

    /// Reads a binder and what it encloses, and writes `for<...> ` in front
    /// if the binder binds lifetimes; these are in scope inside.
    pub fn in_binder(&mut self, inner: Binder)
        requires
            old(self).wf(),
            old(self).parser matches Ok(p) ==> p.next >= 1,
        ensures
            final(self).keeps(*old(self)),
            final(self).state() == grammar::in_binder(
                old(self).sym(),
                old(self).mode(),
                old(self).depth(),
                old(self).bound(),
                old(self).state(),
                inner,
            ),
        decreases old(self).levels(), 8nat,
    {
        let bound_lifetimes: u64 = match self.read_opt_integer_62('G' as u8) {
            Some(n) => n,
            None => {
                return ;
            },
        };
        if self.out.is_none() {
            self.print_binder_body(inner);
            return ;
        }
        let bound: u32 = self.bound_lifetime_depth;
        if bound_lifetimes > (u32::MAX - bound) as u64 {
            self.fail(ParseError::Invalid);
            return ;
        }
        if bound_lifetimes > 0 {
            self.print("for<");
            let ghost opened = self.state();
            let ghost cursor = self.parser;
            let mut i: u64 = 0;
            while i < bound_lifetimes && !self.is_full()
                invariant
                    i <= bound_lifetimes,
                    bound + bound_lifetimes <= u32::MAX,
                    self.wf(),
                    self.parser == cursor || self.full(),
                    cursor is Ok || self.full(),
                    self.mode() == old(self).mode(),
                    self.mode().printing,
                    self.bound_lifetime_depth == bound + i,
                    grammar::binder_lifetimes(
                        self.mode(),
                        bound as nat,
                        self.state(),
                        i as nat,
                        bound_lifetimes as nat,
                    ) == grammar::binder_lifetimes(
                        self.mode(),
                        bound as nat,
                        opened,
                        0,
                        bound_lifetimes as nat,
                    ),
                decreases bound_lifetimes - i,
            {
                if i > 0 {
                    self.print(", ");
                }
                self.bound_lifetime_depth += 1;
                self.print_lifetime_from_index(1);
                i += 1;
            }
            proof {
                if i < bound_lifetimes {
                    lemma_binder_lifetimes_stopped(
                        self.mode(),
                        bound as nat,
                        self.state(),
                        i as nat,
                        bound_lifetimes as nat,
                    );
                }
            }
            self.bound_lifetime_depth = bound + bound_lifetimes as u32;
            self.print("> ");
        }
        self.print_binder_body(inner);
        self.bound_lifetime_depth -= bound_lifetimes as u32;
    }

    /// What a binder encloses.
    fn print_binder_body(&mut self, inner: Binder)
        requires
            old(self).wf(),
            old(self).parser matches Ok(p) ==> p.next >= 1,
        ensures
            final(self).keeps(*old(self)),
            final(self).state() == grammar::print_binder_body(
                old(self).sym(),
                old(self).mode(),
                old(self).depth(),
                old(self).bound(),
                old(self).state(),
                inner,
            ),
        decreases old(self).levels(), 7nat,
    {
        match inner {
            Binder::FnSig => {
                self.print_fn_sig();
            },
            Binder::DynTraits => {
                self.print_sep_list(ListItem::DynTrait, " + ");
            },
        }
    }

    /// Reads the items of a list up to its closing `E` and writes them with
    /// `sep` between them. Returns the number of items.
    pub fn print_sep_list(&mut self, item: ListItem, sep: &str) -> (count: usize)
        requires
            old(self).wf(),
            old(self).parser matches Ok(p) ==> p.next >= 1,
        ensures
            final(self).keeps(*old(self)),
            (final(self).state(), count as nat) == grammar::print_sep_list(
                old(self).sym(),
                old(self).mode(),
                old(self).depth(),
                old(self).bound(),
                old(self).state(),
                item,
                sep@,
                0,
            ),
        decreases old(self).levels(), grammar::list_rank(item),
    {
        let ghost sym = self.sym();
        let ghost m = self.mode();
        let ghost d = self.depth();
        let ghost b = self.bound();
        let ghost whole = grammar::print_sep_list(sym, m, d, b, self.state(), item, sep@, 0);
        let mut i: usize = 0;
        loop
            invariant_except_break
                self.keeps(*old(self)),
                self.parser is Ok ==> old(self).parser is Ok && i + 1 <= self.state().next(),
                grammar::print_sep_list(sym, m, d, b, self.state(), item, sep@, i as nat)
                    == whole,
            invariant
                sym == old(self).sym(),
                m == old(self).mode(),
                d == old(self).depth(),
                b == old(self).bound(),
                old(self).wf(),
            ensures
                self.keeps(*old(self)),
                (self.state(), i as nat) == whole,
            decreases self.state().remaining(sym),
        {
            if self.parser.is_err() {
                break ;
            }
            if self.eat('E' as u8) {
                break ;
            }
            if i > 0 {
                self.print(sep);
            }
            proof {
                let s = self.state();
                assert(grammar::print_list_item(sym, m, d, b, s, item) == match item {
                    ListItem::GenericArg => grammar::print_generic_arg(sym, m, d, b, s),
                    ListItem::Type => grammar::print_type(sym, m, d, b, s),
                    ListItem::DynTrait => grammar::print_dyn_trait(sym, m, d, b, s),
                });
            }
            match item {
                ListItem::GenericArg => {
                    self.print_generic_arg();
                },
                ListItem::Type => {
                    self.print_type();
                },
                ListItem::DynTrait => {
                    self.print_dyn_trait();
                },
            }
            i += 1;
        }
        i
    }

    /// Reads and writes a path.
    pub fn print_path(&mut self, in_value: bool)
        requires
            old(self).wf(),
        ensures
            final(self).keeps(*old(self)),
            final(self).state() == grammar::print_path(
                old(self).sym(),
                old(self).mode(),
                old(self).depth(),
                old(self).bound(),
                old(self).state(),
                in_value,
            ),
            final(self).moved(*old(self)),
        decreases old(self).levels(), 0nat,
    {
        if !self.enter() {
            return ;
        }
        let tag = match self.read_next() {
            Some(tag) => tag,
            None => {
                return ;
            },
        };
        if tag == 'C' as u8 {
            self.print_path_crate();
        } else if tag == 'N' as u8 {
            self.print_path_nested(in_value);
        } else if tag == 'M' as u8 || tag == 'X' as u8 || tag == 'Y' as u8 {
            self.print_path_impl(tag);
        } else if tag == 'I' as u8 {
            self.print_path_instance(in_value);
        } else if tag == 'B' as u8 {
            self.print_backref(Backref::Path { in_value });
        } else {
            self.fail(ParseError::Invalid);
            return ;
        }
        self.pop_depth();
    }

    /// A crate root.
    fn print_path_crate(&mut self)
        requires
            old(self).wf(),
        ensures
            final(self).keeps(*old(self)),
            final(self).state() == grammar::print_path_crate(
                old(self).sym(),
                old(self).mode(),
                old(self).state(),
            ),
    {
        let dis = match self.read_disambiguator() {
            Some(dis) => dis,
            None => {
                return ;
            },
        };
        let name = match self.read_ident() {
            Some(name) => name,
            None => {
                return ;
            },
        };
        self.print_ident(&name);
        if self.out.is_some() && !self.alternate && dis != 0 {
            self.print("[");
            self.print_u64(dis, true);
            self.print("]");
        }
    }

    /// The last segment of a nested path.
    fn print_path_segment(&mut self, ns: Option<char>, dis: u64, name: &Ident<'s>)
        requires
            old(self).wf(),
        ensures
            final(self).only_wrote(*old(self)),
            final(self).state() == grammar::print_path_segment(
                old(self).mode(),
                old(self).state(),
                ns,
                dis,
                name@,
            ),
    {
        match ns {
            Some(c) => {
                self.print("::{");
                if c == 'C' {
                    self.print("closure");
                } else if c == 'S' {
                    self.print("shim");
                } else {
                    self.print_char(c);
                }
                if !name.is_empty() {
                    self.print(":");
                    self.print_ident(name);
                }
                self.print("#");
                self.print_u64(dis, false);
                self.print("}");
            },
            None => {
                if !name.is_empty() {
                    self.print("::");
                    self.print_ident(name);
                }
            },
        }
    }

    /// A nested path, its `N` having been read.
    fn print_path_nested(&mut self, in_value: bool)
        requires
            old(self).wf(),
            old(self).parser is Ok,
        ensures
            final(self).keeps(*old(self)),
            final(self).state() == grammar::print_path_nested(
                old(self).sym(),
                old(self).mode(),
                old(self).depth(),
                old(self).bound(),
                old(self).state(),
                in_value,
            ),
        decreases old(self).levels(), 9nat,
    {
        let ns = match self.read_namespace() {
            Some(ns) => ns,
            None => {
                return ;
            },
        };
        self.print_path(in_value);
        if self.parser.is_err() {
            self.print("::");
        }
        let dis = match self.read_disambiguator() {
            Some(dis) => dis,
            None => {
                return ;
            },
        };
        let name = match self.read_ident() {
            Some(name) => name,
            None => {
                return ;
            },
        };
        self.print_path_segment(ns, dis, &name);
    }

    /// An impl, its tag having been read.
    fn print_path_impl(&mut self, tag: u8)
        requires
            old(self).wf(),
            old(self).parser is Ok,
        ensures
            final(self).keeps(*old(self)),
            final(self).state() == grammar::print_path_impl(
                old(self).sym(),
                old(self).mode(),
                old(self).depth(),
                old(self).bound(),
                old(self).state(),
                tag,
            ),
        decreases old(self).levels(), 9nat,
    {
        if tag != 'Y' as u8 {
            if self.read_disambiguator().is_none() {
                return ;
            }
            self.skipping_printing();
        }
        proof {
            let st = self.state();
            let inner = grammar::print_type(
                old(self).sym(),
                self.mode(),
                old(self).depth(),
                self.bound(),
                st.emit(self.mode(), "<"@),
            );
            assert(grammar::print_path_impl_body(
                old(self).sym(),
                self.mode(),
                old(self).depth(),
                self.bound(),
                st,
                tag,
            ) == (if tag != 'M' as u8 {
                grammar::print_path(
                    old(self).sym(),
                    self.mode(),
                    old(self).depth(),
                    self.bound(),
                    inner.emit(self.mode(), " as "@),
                    false,
                )
            } else {
                inner
            }).emit(self.mode(), ">"@));
        }
        self.print("<");
        self.print_type();
        if tag != 'M' as u8 {
            self.print(" as ");
            self.print_path(false);
        }
        self.print(">");
    }

    /// A generic instance, its `I` having been read.
    fn print_path_instance(&mut self, in_value: bool)
        requires
            old(self).wf(),
            old(self).parser matches Ok(p) && p.next >= 1,
        ensures
            final(self).keeps(*old(self)),
            final(self).state() == grammar::print_path_instance(
                old(self).sym(),
                old(self).mode(),
                old(self).depth(),
                old(self).bound(),
                old(self).state(),
                in_value,
            ),
        decreases old(self).levels(), 9nat,
    {
        self.print_path(in_value);
        if in_value {
            self.print("::");
        }
        self.print("<");
        self.print_sep_list(ListItem::GenericArg, ", ");
        self.print(">");
    }

    /// Reads and writes a generic argument.
    pub fn print_generic_arg(&mut self)
        requires
            old(self).wf(),
        ensures
            final(self).keeps(*old(self)),
            final(self).state() == grammar::print_generic_arg(
                old(self).sym(),
                old(self).mode(),
                old(self).depth(),
                old(self).bound(),
                old(self).state(),
            ),
            final(self).moved(*old(self)),
        decreases old(self).levels(), 1nat,
    {
        if self.eat('L' as u8) {
            let lt = match self.read_integer_62() {
                Some(lt) => lt,
                None => {
                    return ;
                },
            };
            self.print_lifetime_from_index(lt);
        } else if self.eat('K' as u8) {
            self.print_const();
        } else {
            self.print_type();
        }
    }

    /// Reads and writes a type.
    pub fn print_type(&mut self)
        requires
            old(self).wf(),
        ensures
            final(self).keeps(*old(self)),
            final(self).state() == grammar::print_type(
                old(self).sym(),
                old(self).mode(),
                old(self).depth(),
                old(self).bound(),
                old(self).state(),
            ),
            final(self).moved(*old(self)),
        decreases old(self).levels(), 0nat,
    {
        let tag = match self.read_next() {
            Some(tag) => tag,
            None => {
                return ;
            },
        };
        if let Some(ty) = basic_type(tag) {
            self.print(ty);
            return ;
        }
        if !self.enter() {
            return ;
        }
        if tag == 'R' as u8 || tag == 'Q' as u8 {
            self.print_type_ref(tag);
        } else if tag == 'P' as u8 || tag == 'O' as u8 {
            self.print_type_ptr(tag);
        } else if tag == 'A' as u8 || tag == 'S' as u8 {
            self.print_type_array(tag);
        } else if tag == 'T' as u8 {
            self.print_type_tuple();
        } else if tag == 'F' as u8 {
            self.in_binder(Binder::FnSig);
        } else if tag == 'D' as u8 {
            self.print_type_dyn();
        } else if tag == 'B' as u8 {
            self.print_backref(Backref::Type);
        } else {
            self.step_back();
            self.print_path(false);
        }
        self.pop_depth();
    }

    /// Goes back to the tag just read, for a path to be read from it.
    fn step_back(&mut self)
        requires
            old(self).wf(),
            old(self).parser matches Ok(p) && p.next >= 1,
        ensures
            final(self).wf(),
            final(self).mode() == old(self).mode(),
            final(self).bound_lifetime_depth == old(self).bound_lifetime_depth,
            final(self).parser is Ok,
            final(self).sym() == old(self).sym(),
            final(self).depth() == old(self).depth(),
            final(self).state() == old(self).state().at(old(self).state().next() - 1),
    {
        match self.parser {
            Ok(mut p) => {
                p.next -= 1;
                self.parser = Ok(p);
            },
            Err(_) => {},
        }
    }

    /// A reference, its tag having been read.
    fn print_type_ref(&mut self, tag: u8)
        requires
            old(self).wf(),
            old(self).parser is Ok,
        ensures
            final(self).keeps(*old(self)),
            final(self).state() == grammar::print_type_ref(
                old(self).sym(),
                old(self).mode(),
                old(self).depth(),
                old(self).bound(),
                old(self).state(),
                tag,
            ),
        decreases old(self).levels(), 9nat,
    {
        self.print("&");
        if self.eat('L' as u8) {
            let lt = match self.read_integer_62() {
                Some(lt) => lt,
                None => {
                    return ;
                },
            };
            if lt != 0 {
                self.print_lifetime_from_index(lt);
                self.print(" ");
            }
        }
        if tag != 'R' as u8 {
            self.print("mut ");
        }
        self.print_type();
    }

    /// A raw pointer, its tag having been read.
    fn print_type_ptr(&mut self, tag: u8)
        requires
            old(self).wf(),
            old(self).parser is Ok,
        ensures
            final(self).keeps(*old(self)),
            final(self).state() == grammar::print_type_ptr(
                old(self).sym(),
                old(self).mode(),
                old(self).depth(),
                old(self).bound(),
                old(self).state(),
                tag,
            ),
        decreases old(self).levels(), 9nat,
    {
        self.print("*");
        if tag != 'P' as u8 {
            self.print("mut ");
        } else {
            self.print("const ");
        }
        self.print_type();
    }

    /// An array or a slice, its tag having been read.
    fn print_type_array(&mut self, tag: u8)
        requires
            old(self).wf(),
            old(self).parser is Ok,
        ensures
            final(self).keeps(*old(self)),
            final(self).state() == grammar::print_type_array(
                old(self).sym(),
                old(self).mode(),
                old(self).depth(),
                old(self).bound(),
                old(self).state(),
                tag,
            ),
        decreases old(self).levels(), 9nat,
    {
        self.print("[");
        self.print_type();
        if tag == 'A' as u8 {
            self.print("; ");
            self.print_const();
        }
        self.print("]");
    }

    /// A tuple, its `T` having been read.
    fn print_type_tuple(&mut self)
        requires
            old(self).wf(),
            old(self).parser matches Ok(p) && p.next >= 1,
        ensures
            final(self).keeps(*old(self)),
            final(self).state() == grammar::print_type_tuple(
                old(self).sym(),
                old(self).mode(),
                old(self).depth(),
                old(self).bound(),
                old(self).state(),
            ),
        decreases old(self).levels(), 9nat,
    {
        self.print("(");
        let count = self.print_sep_list(ListItem::Type, ", ");
        if count == 1 {
            self.print(",");
        }
        self.print(")");
    }

    /// A trait object, its `D` having been read.
    fn print_type_dyn(&mut self)
        requires
            old(self).wf(),
            old(self).parser matches Ok(p) && p.next >= 1,
        ensures
            final(self).keeps(*old(self)),
            final(self).state() == grammar::print_type_dyn(
                old(self).sym(),
                old(self).mode(),
                old(self).depth(),
                old(self).bound(),
                old(self).state(),
            ),
        decreases old(self).levels(), 9nat,
    {
        self.print("dyn ");
        self.in_binder(Binder::DynTraits);
        if !self.eat('L' as u8) {
            self.fail(ParseError::Invalid);
            return ;
        }
        let lt = match self.read_integer_62() {
            Some(lt) => lt,
            None => {
                return ;
            },
        };
        if lt != 0 {
            self.print(" + ");
            self.print_lifetime_from_index(lt);
        }
    }

    /// The signature of a function pointer.
    fn print_fn_sig(&mut self)
        requires
            old(self).wf(),
            old(self).parser matches Ok(p) ==> p.next >= 1,
        ensures
            final(self).keeps(*old(self)),
            final(self).state() == grammar::print_fn_sig(
                old(self).sym(),
                old(self).mode(),
                old(self).depth(),
                old(self).bound(),
                old(self).state(),
            ),
        decreases old(self).levels(), 4nat,
    {
        let is_unsafe = self.eat('U' as u8);
        if self.eat('K' as u8) {
            if self.eat('C' as u8) {
                self.print_fn_sig_tail(is_unsafe, Abi::C);
            } else {
                let abi = match self.read_ident() {
                    Some(abi) => abi,
                    None => {
                        return ;
                    },
                };
                if abi.ascii.len() == 0 || abi.punycode.len() != 0 {
                    self.fail(ParseError::Invalid);
                    return ;
                }
                self.print_fn_sig_tail(is_unsafe, Abi::Named(abi.ascii));
            }
        } else {
            self.print_fn_sig_tail(is_unsafe, Abi::Rust);
        }
    }

    /// The written part of a function pointer's signature.
    fn print_fn_sig_tail(&mut self, is_unsafe: bool, abi: Abi<'s>)
        requires
            old(self).wf(),
            old(self).parser matches Ok(p) ==> p.next >= 1,
        ensures
            final(self).keeps(*old(self)),
            final(self).state() == grammar::print_fn_sig_tail(
                old(self).sym(),
                old(self).mode(),
                old(self).depth(),
                old(self).bound(),
                old(self).state(),
                is_unsafe,
                abi.text(),
            ),
        decreases old(self).levels(), 3nat,
    {
        if is_unsafe {
            self.print("unsafe ");
        }
        match abi {
            Abi::Rust => {},
            Abi::C => {
                self.print("extern \"");
                self.print("C");
                self.print("\" ");
            },
            Abi::Named(name) => {
                self.print("extern \"");
                self.print_abi(name);
                self.print("\" ");
            },
        }
        self.print("fn(");
        self.print_sep_list(ListItem::Type, ", ");
        self.print(")");
        if self.eat('u' as u8) {
        } else {
            self.print(" -> ");
            self.print_type();
        }
    }

    /// Reads and writes the path of a trait in a trait object, and says
    /// whether its `<` was left open.
    pub fn print_path_maybe_open_generics(&mut self) -> (open: bool)
        requires
            old(self).wf(),
        ensures
            final(self).keeps(*old(self)),
            (final(self).state(), open) == grammar::print_path_maybe_open_generics(
                old(self).sym(),
                old(self).mode(),
                old(self).depth(),
                old(self).bound(),
                old(self).state(),
            ),
            final(self).moved(*old(self)),
        decreases old(self).levels(), 3nat,
    {
        if self.eat('B' as u8) {
            self.print_backref(Backref::OpenPath)
        } else if self.eat('I' as u8) {
            self.print_path(false);
            self.print("<");
            self.print_sep_list(ListItem::GenericArg, ", ");
            true
        } else {
            self.print_path(false);
            false
        }
    }

    /// Reads and writes a trait of a trait object with its associated type
    /// bindings.
    pub fn print_dyn_trait(&mut self)
        requires
            old(self).wf(),
        ensures
            final(self).keeps(*old(self)),
            final(self).state() == grammar::print_dyn_trait(
                old(self).sym(),
                old(self).mode(),
                old(self).depth(),
                old(self).bound(),
                old(self).state(),
            ),
            final(self).moved(*old(self)),
        decreases old(self).levels(), 5nat,
    {
        let ghost sym = self.sym();
        let ghost m = self.mode();
        let ghost d = self.depth();
        let ghost b = self.bound();
        let ghost whole = grammar::print_dyn_trait(sym, m, d, b, self.state());
        let mut open = self.print_path_maybe_open_generics();
        loop
            invariant_except_break
                grammar::print_dyn_bindings(sym, m, d, b, self.state(), open) == whole,
            invariant
                whole == grammar::print_dyn_trait(sym, m, d, b, old(self).state()),
                self.keeps(*old(self)),
                self.moved(*old(self)),
                sym == old(self).sym(),
                m == old(self).mode(),
                d == old(self).depth(),
                b == old(self).bound(),
                old(self).wf(),
            ensures
                !open ==> self.state() == whole,
                open ==> self.state().emit(m, ">"@) == whole,
            decreases self.state().remaining(sym),
        {
            let ghost head = self.state();
            let ghost was_open = open;
            if !self.eat('p' as u8) {
                break ;
            }
            let ghost eaten = self.state();
            let ghost opened = if !open {
                eaten.emit(m, "<"@)
            } else {
                eaten.emit(m, ", "@)
            };
            let ghost read = step(opened, m, parser::ident(sym, opened.next()));
            assert(eaten == head.at(head.next() + 1));
            if !self.print_binding_name(open) {
                assert(self.state() == read.1);
                assert(grammar::print_dyn_bindings(sym, m, d, b, head, was_open) == read.1);
                return ;
            }
            let ghost from = self.state();
            open = true;
            self.print_type();
            proof {
                let after = grammar::print_type(sym, m, d, b, from);
                assert(self.state() == after);
                assert(after.remaining(sym) < head.remaining(sym));
                assert(grammar::print_dyn_bindings(sym, m, d, b, head, was_open)
                    == grammar::print_dyn_bindings(sym, m, d, b, after, true));
            }
        }
        if open {
            self.print(">");
        }
    }

    /// The head of an associated type binding, its `p` having been read:
    /// `<` or `, `, and the name in front of ` = `. Says whether the name
    /// could be read.
    fn print_binding_name(&mut self, open: bool) -> (r: bool)
        requires
            old(self).wf(),
        ensures
            final(self).keeps(*old(self)),
            ({
                let m = old(self).mode();
                let opened = if !open {
                    old(self).state().emit(m, "<"@)
                } else {
                    old(self).state().emit(m, ", "@)
                };
                let read = step(opened, m, parser::ident(old(self).sym(), opened.next()));
                match read.0 {
                    Some(name) => r && final(self).state() == read.1.emit(m, ident_text(name)).emit(
                        m,
                        " = "@,
                    ),
                    None => !r && final(self).state() == read.1,
                }
            }),
    {
        if !open {
            self.print("<");
        } else {
            self.print(", ");
        }
        let name = match self.read_ident() {
            Some(name) => name,
            None => {
                return false;
            },
        };
        self.print_ident(&name);
        self.print(" = ");
        true
    }

    /// Reads and writes a constant.
    pub fn print_const(&mut self)
        requires
            old(self).wf(),
        ensures
            final(self).keeps(*old(self)),
            final(self).state() == grammar::print_const(
                old(self).sym(),
                old(self).mode(),
                old(self).depth(),
                old(self).bound(),
                old(self).state(),
            ),
            final(self).moved(*old(self)),
        decreases old(self).levels(), 0nat,
    {
        if !self.enter() {
            return ;
        }
        if self.eat('B' as u8) {
            self.print_backref(Backref::Const);
            self.pop_depth();
            return ;
        }
        let ty_tag = match self.read_next() {
            Some(tag) => tag,
            None => {
                return ;
            },
        };
        if ty_tag == 'p' as u8 {
            self.print("_");
            self.pop_depth();
            return ;
        }
        if ty_tag == 'h' as u8 || ty_tag == 't' as u8 || ty_tag == 'm' as u8 || ty_tag
            == 'y' as u8 || ty_tag == 'o' as u8 || ty_tag == 'j' as u8 {
            self.print_const_uint();
        } else if ty_tag == 'a' as u8 || ty_tag == 's' as u8 || ty_tag == 'l' as u8 || ty_tag
            == 'x' as u8 || ty_tag == 'n' as u8 || ty_tag == 'i' as u8 {
            self.print_const_int();
        } else if ty_tag == 'b' as u8 {
            self.print_const_bool();
        } else if ty_tag == 'c' as u8 {
            self.print_const_char();
        } else {
            self.fail(ParseError::Invalid);
            return ;
        }
        if self.out.is_some() && !self.alternate {
            match basic_type(ty_tag) {
                Some(ty) => {
                    self.print(ty);
                },
                None => {},
            }
        }
        self.pop_depth();
    }

    /// An unsigned constant.
    pub fn print_const_uint(&mut self)
        requires
            old(self).wf(),
        ensures
            final(self).keeps(*old(self)),
            final(self).state() == grammar::print_const_uint(
                old(self).sym(),
                old(self).mode(),
                old(self).state(),
            ),
    {
        let hex = match self.read_hex_nibbles() {
            Some(hex) => hex,
            None => {
                return ;
            },
        };
        if hex.len() > 16 {
            self.print("0x");
            self.print_bytes(hex);
            return ;
        }
        let v = hex_to_u64(hex);
        self.print_u64(v, false);
    }

    /// A signed constant.
    pub fn print_const_int(&mut self)
        requires
            old(self).wf(),
        ensures
            final(self).keeps(*old(self)),
            final(self).state() == grammar::print_const_int(
                old(self).sym(),
                old(self).mode(),
                old(self).state(),
            ),
    {
        if self.eat('n' as u8) {
            self.print("-");
        }
        self.print_const_uint();
    }

    /// A boolean constant.
    pub fn print_const_bool(&mut self)
        requires
            old(self).wf(),
        ensures
            final(self).keeps(*old(self)),
            final(self).state() == grammar::print_const_bool(
                old(self).sym(),
                old(self).mode(),
                old(self).state(),
            ),
    {
        let hex = match self.read_hex_nibbles() {
            Some(hex) => hex,
            None => {
                return ;
            },
        };
        if hex.len() == 1 && hex[0] == '0' as u8 {
            proof {
                assert(hex@ =~= seq!['0' as u8]);
            }
            self.print("false");
        } else if hex.len() == 1 && hex[0] == '1' as u8 {
            proof {
                assert(hex@ =~= seq!['1' as u8]);
            }
            self.print("true");
        } else {
            proof {
                if hex@ == seq!['0' as u8] || hex@ == seq!['1' as u8] {
                    assert(hex@.len() == 1);
                    assert(hex@[0] == seq!['0' as u8][0] || hex@[0] == seq!['1' as u8][0]);
                }
            }
            self.fail(ParseError::Invalid);
        }
    }

    /// A character constant.
    pub fn print_const_char(&mut self)
        requires
            old(self).wf(),
        ensures
            final(self).keeps(*old(self)),
            final(self).state() == grammar::print_const_char(
                old(self).sym(),
                old(self).mode(),
                old(self).state(),
            ),
    {
        let hex = match self.read_hex_nibbles() {
            Some(hex) => hex,
            None => {
                return ;
            },
        };
        if hex.len() > 8 {
            self.fail(ParseError::Invalid);
            return ;
        }
        let v: u64 = hex_to_u64(hex);
        proof {
            lemma_pow16_increases(hex@.len(), 8);
            lemma_pow16_values();
        }
        match char::from_u32(v as u32) {
            Some(c) => {
                proof {
                    vstd::utf8::char_u32_cast(c, v as u32);
                }
                if self.out.is_some() {
                    let text = char_debug(c);
                    self.print(text.as_str());
                }
            },
            None => {
                self.fail(ParseError::Invalid);
            },
        }
    }
}

} // verus!
