//! What a v0 symbol stands for.
//!
//! The grammar is given as functions from a [`State`], the position in the
//! symbol together with the text written so far, to the state after one
//! production. A production is read at a nesting `depth` and under `bound`
//! lifetimes bound by enclosing `for<...>` binders; both are parameters,
//! since a production leaves them as it found them.
//!
//! Errors are sticky. The first error writes its message and replaces the
//! position; after that every read writes `?` and changes nothing else, so
//! that delimiters already opened are still closed.
//!
//! Text is written to a sink that may be bounded. A write that does not fit
//! ends the walk: nothing is read or written after it.

use crate::sink::utf8_len;
use crate::text::byte_text;
use crate::text::char_debug_text;
use crate::text::decimal_text;
use crate::text::hex_text;
use crate::text::is_scalar_value;
use crate::v0::parser::backref;
use crate::v0::parser::disambiguator;
use crate::v0::parser::hex_nibbles;
use crate::v0::parser::ident;
use crate::v0::parser::integer_62;
use crate::v0::parser::namespace;
use crate::v0::parser::next_byte;
use crate::v0::parser::opt_integer_62;
use crate::v0::parser::peek_at;
use crate::v0::parser::IdentText;
use crate::v0::punycode::ident_is_empty;
use crate::v0::punycode::ident_text;
use crate::v0::ParseError;
use crate::v0::MAX_DEPTH;
use vstd::prelude::*;

verus! {

/// How a symbol is walked.
pub struct Mode {
    /// Whether text is written; without it a walk only reads.
    pub printing: bool,
    /// Whether disambiguators and the types of constants are left out.
    pub alternate: bool,
    /// How many bytes the text may take in UTF-8, if that is bounded.
    pub limit: Option<nat>,
}

impl Mode {
    /// The same mode without writing.
    pub open spec fn skipping(self) -> Mode {
        Mode { printing: false, alternate: self.alternate, limit: None }
    }

    /// Writing all of the text.
    pub open spec fn writing(alternate: bool) -> Mode {
        Mode { printing: true, alternate, limit: None }
    }

    /// Reading only.
    pub open spec fn reading() -> Mode {
        Mode { printing: false, alternate: false, limit: None }
    }
}

/// Why reading stopped.
#[derive(PartialEq, Eq, Debug, Clone, Copy, Structural)]
pub enum Stop {
    /// The symbol does not follow the grammar.
    Parse(ParseError),
    /// The sink did not take a write.
    Full,
}

/// The position in the symbol, or why reading stopped, and the text written
/// so far.
pub struct State {
    pub pos: Result<int, Stop>,
    pub out: Seq<char>,
}

impl State {
    /// The state at the start of a symbol.
    pub open spec fn start() -> State {
        State { pos: Ok(0int), out: Seq::empty() }
    }

    /// Whether the sink has refused a write.
    pub open spec fn full(self) -> bool {
        self.pos == Err::<int, Stop>(Stop::Full)
    }

    /// The position, or zero after an error.
    pub open spec fn next(self) -> int {
        match self.pos {
            Ok(p) => p,
            Err(_) => 0,
        }
    }

    /// The state with `text` written. Text that does not fit the sink fills
    /// it; a full sink takes nothing.
    pub open spec fn emit(self, m: Mode, text: Seq<char>) -> State {
        if !m.printing || self.full() {
            self
        } else if m.limit matches Some(n) && utf8_len(self.out) + utf8_len(text) > n {
            State { pos: Err(Stop::Full), out: self.out }
        } else {
            State { pos: self.pos, out: self.out + text }
        }
    }

    /// The state after meeting the error `e`: its message is written, and
    /// the error kept unless that filled the sink.
    pub open spec fn fail(self, m: Mode, e: ParseError) -> State {
        let written = self.emit(m, e.message_text());
        if written.full() {
            written
        } else {
            State { pos: Err(Stop::Parse(e)), out: written.out }
        }
    }

    /// The state at position `next`.
    pub open spec fn at(self, next: int) -> State {
        State { pos: Ok(next), out: self.out }
    }

    /// Whether the next byte is `b`; never after reading stopped.
    pub open spec fn sees(self, sym: Seq<u8>, b: u8) -> bool {
        self.pos matches Ok(p) && peek_at(sym, p) == Some(b)
    }

    /// How much of the symbol is left to read, counting the end itself;
    /// nothing after reading stopped.
    pub open spec fn remaining(self, sym: Seq<u8>) -> nat {
        match self.pos {
            Ok(p) => if p <= sym.len() {
                (sym.len() - p + 1) as nat
            } else {
                0
            },
            Err(_) => 0,
        }
    }
}

/// One read: after an error it writes `?`; a failing read writes the error's
/// message and keeps the error; a read that succeeds moves on and yields its
/// value. With a full sink nothing happens.
pub open spec fn step<T>(st: State, m: Mode, read: Result<(T, int), ParseError>) -> (
    Option<T>,
    State,
) {
    match st.pos {
        Err(_) => (None, st.emit(m, "?"@)),
        Ok(_) => match read {
            Err(e) => (None, st.fail(m, e)),
            Ok((v, after)) => (Some(v), st.at(after)),
        },
    }
}

/// Entering a production at `depth`, which is an error at `MAX_DEPTH`.
pub open spec fn enter(depth: nat, next: int) -> Result<((), int), ParseError> {
    if depth >= MAX_DEPTH {
        Err(ParseError::RecursedTooDeep)
    } else {
        Ok(((), next))
    }
}

/// How many levels may still be entered below `depth`.
pub open spec fn levels_left(depth: nat) -> nat {
    if depth < MAX_DEPTH {
        (MAX_DEPTH - depth) as nat
    } else {
        0
    }
}

/// The name of a basic type.
pub open spec fn basic_type(tag: u8) -> Option<Seq<char>> {
    if tag == 'b' as u8 {
        Some("bool"@)
    } else if tag == 'c' as u8 {
        Some("char"@)
    } else if tag == 'e' as u8 {
        Some("str"@)
    } else if tag == 'u' as u8 {
        Some("()"@)
    } else if tag == 'a' as u8 {
        Some("i8"@)
    } else if tag == 's' as u8 {
        Some("i16"@)
    } else if tag == 'l' as u8 {
        Some("i32"@)
    } else if tag == 'x' as u8 {
        Some("i64"@)
    } else if tag == 'n' as u8 {
        Some("i128"@)
    } else if tag == 'i' as u8 {
        Some("isize"@)
    } else if tag == 'h' as u8 {
        Some("u8"@)
    } else if tag == 't' as u8 {
        Some("u16"@)
    } else if tag == 'm' as u8 {
        Some("u32"@)
    } else if tag == 'y' as u8 {
        Some("u64"@)
    } else if tag == 'o' as u8 {
        Some("u128"@)
    } else if tag == 'j' as u8 {
        Some("usize"@)
    } else if tag == 'f' as u8 {
        Some("f32"@)
    } else if tag == 'd' as u8 {
        Some("f64"@)
    } else if tag == 'z' as u8 {
        Some("!"@)
    } else if tag == 'p' as u8 {
        Some("_"@)
    } else if tag == 'v' as u8 {
        Some("..."@)
    } else {
        None
    }
}

/// The tags of the unsigned integer types.
pub open spec fn is_unsigned_tag(tag: u8) -> bool {
    tag == 'h' as u8 || tag == 't' as u8 || tag == 'm' as u8 || tag == 'y' as u8 || tag
        == 'o' as u8 || tag == 'j' as u8
}

/// The tags of the signed integer types.
pub open spec fn is_signed_tag(tag: u8) -> bool {
    tag == 'a' as u8 || tag == 's' as u8 || tag == 'l' as u8 || tag == 'x' as u8 || tag
        == 'n' as u8 || tag == 'i' as u8
}

/// The value of a lower-case hex digit.
pub open spec fn nibble_value(b: u8) -> nat {
    if b <= '9' as u8 {
        (b - '0' as u8) as nat
    } else {
        (b - 'a' as u8 + 10) as nat
    }
}

/// The value of a run of hex digits, most significant first.
pub open spec fn hex_value(hex: Seq<u8>) -> nat
    decreases hex.len(),
{
    if hex.len() == 0 {
        0
    } else {
        hex_value(hex.drop_last()) * 16 + nibble_value(hex.last())
    }
}

/// The name of an ABI: its `_` stand for `-`.
pub open spec fn abi_text(abi: Seq<u8>) -> Seq<char> {
    Seq::new(
        abi.len(),
        |i: int|
            if abi[i] == '_' as u8 {
                '-'
            } else {
                abi[i] as char
            },
    )
}

/// A lifetime by its index. Index 0 is `'_`. Index `lt` from 1 on is the
/// lifetime bound `lt` binders up: `'a` to `'z` counted from the outermost
/// binder, then `'_26` and so on. An index beyond the binders in scope is an
/// error. Nothing is checked while not writing.
pub open spec fn print_lifetime(m: Mode, bound: nat, st: State, lt: u64) -> State {
    if !m.printing {
        st
    } else {
        let s = st.emit(m, "'"@);
        if lt == 0 {
            s.emit(m, "_"@)
        } else if lt > bound {
            s.fail(m, ParseError::Invalid)
        } else {
            let depth = (bound - lt) as nat;
            if depth < 26 {
                s.emit(m, seq![(97 + depth) as char])
            } else {
                s.emit(m, "_"@).emit(m, decimal_text(depth))
            }
        }
    }
}

/// The lifetimes that a binder introduces, from the `i`-th of `n` on, under
/// `bound` lifetimes bound outside the binder.
pub open spec fn binder_lifetimes(m: Mode, bound: nat, st: State, i: nat, n: nat) -> State
    decreases n - i,
{
    if i >= n {
        st
    } else {
        let s = if i > 0 {
            st.emit(m, ", "@)
        } else {
            st
        };
        binder_lifetimes(m, bound, print_lifetime(m, bound + i + 1, s, 1), i + 1, n)
    }
}

/// An unsigned constant: up to 16 hex digits are written in decimal, more
/// as they stand behind `0x`.
pub open spec fn print_const_uint(sym: Seq<u8>, m: Mode, st: State) -> State {
    match step(st, m, hex_nibbles(sym, st.next())) {
        (None, st) => st,
        (Some(hex), st) => if hex.len() > 16 {
            st.emit(m, "0x"@).emit(m, byte_text(hex))
        } else {
            st.emit(m, decimal_text(hex_value(hex)))
        },
    }
}

/// A signed constant: an `n` for the minus sign, then the magnitude.
pub open spec fn print_const_int(sym: Seq<u8>, m: Mode, st: State) -> State {
    if st.sees(sym, 'n' as u8) {
        print_const_uint(sym, m, st.at(st.next() + 1).emit(m, "-"@))
    } else {
        print_const_uint(sym, m, st)
    }
}

/// A boolean constant: `0` or `1`.
pub open spec fn print_const_bool(sym: Seq<u8>, m: Mode, st: State) -> State {
    match step(st, m, hex_nibbles(sym, st.next())) {
        (None, st) => st,
        (Some(hex), st) => if hex == seq!['0' as u8] {
            st.emit(m, "false"@)
        } else if hex == seq!['1' as u8] {
            st.emit(m, "true"@)
        } else {
            st.fail(m, ParseError::Invalid)
        },
    }
}

/// A character constant: up to 8 hex digits of a Unicode scalar value,
/// written as `std` writes a character for debugging.
pub open spec fn print_const_char(sym: Seq<u8>, m: Mode, st: State) -> State {
    match step(st, m, hex_nibbles(sym, st.next())) {
        (None, st) => st,
        (Some(hex), st) => if hex.len() > 8 || !is_scalar_value(hex_value(hex) as int) {
            st.fail(m, ParseError::Invalid)
        } else {
            st.emit(m, char_debug_text(hex_value(hex) as char))
        },
    }
}

/// The value of a constant whose type has the tag `ty_tag`.
pub open spec fn print_const_value(sym: Seq<u8>, m: Mode, st: State, ty_tag: u8) -> State {
    if is_unsigned_tag(ty_tag) {
        print_const_uint(sym, m, st)
    } else if is_signed_tag(ty_tag) {
        print_const_int(sym, m, st)
    } else if ty_tag == 'b' as u8 {
        print_const_bool(sym, m, st)
    } else {
        print_const_char(sym, m, st)
    }
}

/// Whether constants of the type with this tag can be written.
pub open spec fn is_const_tag(ty_tag: u8) -> bool {
    is_unsigned_tag(ty_tag) || is_signed_tag(ty_tag) || ty_tag == 'b' as u8 || ty_tag
        == 'c' as u8
}

/// A crate root, `C`: the crate's name and, unless alternate, its
/// disambiguator in hex between brackets if it is not zero.
pub open spec fn print_path_crate(sym: Seq<u8>, m: Mode, st: State) -> State {
    match step(st, m, disambiguator(sym, st.next())) {
        (None, st) => st,
        (Some(dis), st) => match step(st, m, ident(sym, st.next())) {
            (None, st) => st,
            (Some(name), st) => {
                let st = st.emit(m, ident_text(name));
                if m.printing && !m.alternate && dis != 0 {
                    st.emit(m, "["@).emit(m, hex_text(dis as nat)).emit(m, "]"@)
                } else {
                    st
                }
            },
        },
    }
}

/// The last segment of a nested path. In a special namespace it is written
/// as `::{kind:name#disambiguator}`, without `:name` for an empty name; the
/// kind is `closure` for `C`, `shim` for `S`, else the letter. Otherwise it
/// is `::name`, or nothing for an empty name.
pub open spec fn print_path_segment(
    m: Mode,
    st: State,
    ns: Option<char>,
    dis: u64,
    name: IdentText,
) -> State {
    match ns {
        Some(c) => {
            let st = st.emit(m, "::{"@);
            let st = if c == 'C' {
                st.emit(m, "closure"@)
            } else if c == 'S' {
                st.emit(m, "shim"@)
            } else {
                st.emit(m, seq![c])
            };
            let st = if !ident_is_empty(name) {
                st.emit(m, ":"@).emit(m, ident_text(name))
            } else {
                st
            };
            st.emit(m, "#"@).emit(m, decimal_text(dis as nat)).emit(m, "}"@)
        },
        None => if !ident_is_empty(name) {
            st.emit(m, "::"@).emit(m, ident_text(name))
        } else {
            st
        },
    }
}

/// What stands in a list.
#[derive(Clone, Copy)]
pub enum ListItem {
    /// A generic argument: a lifetime, a constant or a type.
    GenericArg,
    /// A type.
    Type,
    /// A trait of a trait object, with its associated type bindings.
    DynTrait,
}

/// What a binder encloses.
#[derive(Clone, Copy)]
pub enum Binder {
    /// The signature of a function pointer.
    FnSig,
    /// The traits of a trait object.
    DynTraits,
}

/// What a backreference points at.
#[derive(Clone, Copy)]
pub enum Backref {
    /// A path, in value or in type position.
    Path { in_value: bool },
    /// A type.
    Type,
    /// A constant.
    Const,
    /// The path of a trait whose generic arguments may stay open.
    OpenPath,
}

/// The place of a list in the order in which productions at one depth may
/// contain each other.
pub open spec fn list_rank(item: ListItem) -> nat {
    match item {
        ListItem::GenericArg => 2,
        ListItem::Type => 2,
        ListItem::DynTrait => 6,
    }
}

/// A path.
pub open spec fn print_path(
    sym: Seq<u8>,
    m: Mode,
    depth: nat,
    bound: nat,
    st: State,
    in_value: bool,
) -> State
    decreases levels_left(depth), 0nat, 0nat,
{
    match step(st, m, enter(depth, st.next())) {
        (None, st) => st,
        (Some(_), st) => match step(st, m, next_byte(sym, st.next())) {
            (None, st) => st,
            (Some(tag), st) => if tag == 'C' as u8 {
                print_path_crate(sym, m, st)
            } else if tag == 'N' as u8 {
                print_path_nested(sym, m, depth + 1, bound, st, in_value)
            } else if tag == 'M' as u8 || tag == 'X' as u8 || tag == 'Y' as u8 {
                print_path_impl(sym, m, depth + 1, bound, st, tag)
            } else if tag == 'I' as u8 {
                print_path_instance(sym, m, depth + 1, bound, st, in_value)
            } else if tag == 'B' as u8 {
                print_backref(sym, m, depth + 1, bound, st, Backref::Path { in_value }).0
            } else {
                st.fail(m, ParseError::Invalid)
            },
        },
    }
}

/// A nested path, `N`: a namespace, the parent path, and the segment. After
/// an error in the parent the `::` in front of the segment is still written.
pub open spec fn print_path_nested(
    sym: Seq<u8>,
    m: Mode,
    depth: nat,
    bound: nat,
    st: State,
    in_value: bool,
) -> State
    decreases levels_left(depth), 9nat, 0nat,
{
    match step(st, m, namespace(sym, st.next())) {
        (None, st) => st,
        (Some(ns), st) => {
            let st = print_path(sym, m, depth, bound, st, in_value);
            let st = if st.pos is Err {
                st.emit(m, "::"@)
            } else {
                st
            };
            match step(st, m, disambiguator(sym, st.next())) {
                (None, st) => st,
                (Some(dis), st) => match step(st, m, ident(sym, st.next())) {
                    (None, st) => st,
                    (Some(name), st) => print_path_segment(m, st, ns, dis, name),
                },
            }
        },
    }
}

/// An impl: `M` for an inherent impl, written `<type>`; `X` for a trait
/// impl and `Y` for a trait definition, written `<type as trait>`. `M` and
/// `X` begin with the impl's own disambiguator and path, which are read and
/// not written.
pub open spec fn print_path_impl(
    sym: Seq<u8>,
    m: Mode,
    depth: nat,
    bound: nat,
    st: State,
    tag: u8,
) -> State
    decreases levels_left(depth), 9nat, 0nat,
{
    if tag != 'Y' as u8 {
        match step(st, m, disambiguator(sym, st.next())) {
            (None, st) => st,
            (Some(_), st) => {
                let skipped = print_path(
                    sym,
                    m.skipping(),
                    depth,
                    bound,
                    State { pos: st.pos, out: Seq::empty() },
                    false,
                );
                print_path_impl_body(
                    sym,
                    m,
                    depth,
                    bound,
                    State { pos: skipped.pos, out: st.out },
                    tag,
                )
            },
        }
    } else {
        print_path_impl_body(sym, m, depth, bound, st, tag)
    }
}

/// The written part of an impl.
pub open spec fn print_path_impl_body(
    sym: Seq<u8>,
    m: Mode,
    depth: nat,
    bound: nat,
    st: State,
    tag: u8,
) -> State
    decreases levels_left(depth), 8nat, 0nat,
{
    let st = print_type(sym, m, depth, bound, st.emit(m, "<"@));
    let st = if tag != 'M' as u8 {
        print_path(sym, m, depth, bound, st.emit(m, " as "@), false)
    } else {
        st
    };
    st.emit(m, ">"@)
}

/// A generic instance, `I`: the path and its arguments between `<` and `>`,
/// behind `::` in value position.
pub open spec fn print_path_instance(
    sym: Seq<u8>,
    m: Mode,
    depth: nat,
    bound: nat,
    st: State,
    in_value: bool,
) -> State
    decreases levels_left(depth), 9nat, 0nat,
{
    let st = print_path(sym, m, depth, bound, st, in_value);
    let st = if in_value {
        st.emit(m, "::"@)
    } else {
        st
    };
    let st = print_sep_list(
        sym,
        m,
        depth,
        bound,
        st.emit(m, "<"@),
        ListItem::GenericArg,
        ", "@,
        0,
    ).0;
    st.emit(m, ">"@)
}

/// The target of a backreference, read at the position the reference names
/// and one level deeper; afterwards reading goes on behind the reference,
/// whatever error the target met, unless the sink is full.
/// While not writing, the target is not followed. The flag is that of
/// [`print_path_maybe_open_generics`] for such a target, else unset.
pub open spec fn print_backref(
    sym: Seq<u8>,
    m: Mode,
    depth: nat,
    bound: nat,
    st: State,
    target: Backref,
) -> (State, bool)
    decreases levels_left(depth), 1nat, 0nat,
{
    match step(st, m, backref(sym, st.next(), depth)) {
        (None, st) => (st, false),
        (Some(t), st) => if !m.printing {
            (st, false)
        } else {
            let from = State { pos: Ok(t.next), out: st.out };
            let (inner, open) = match target {
                Backref::Path { in_value } => (
                    print_path(sym, m, t.depth, bound, from, in_value),
                    false,
                ),
                Backref::Type => (print_type(sym, m, t.depth, bound, from), false),
                Backref::Const => (print_const(sym, m, t.depth, bound, from), false),
                Backref::OpenPath => print_path_maybe_open_generics(
                    sym,
                    m,
                    t.depth,
                    bound,
                    from,
                ),
            };
            (
                State {
                    pos: if inner.full() {
                        inner.pos
                    } else {
                        st.pos
                    },
                    out: inner.out,
                },
                open,
            )
        },
    }
}

/// A generic argument: `L` and a lifetime, `K` and a constant, or a type.
pub open spec fn print_generic_arg(
    sym: Seq<u8>,
    m: Mode,
    depth: nat,
    bound: nat,
    st: State,
) -> State
    decreases levels_left(depth), 1nat, 0nat,
{
    if st.sees(sym, 'L' as u8) {
        let st = st.at(st.next() + 1);
        match step(st, m, integer_62(sym, st.next())) {
            (None, st) => st,
            (Some(lt), st) => print_lifetime(m, bound, st, lt),
        }
    } else if st.sees(sym, 'K' as u8) {
        print_const(sym, m, depth, bound, st.at(st.next() + 1))
    } else {
        print_type(sym, m, depth, bound, st)
    }
}

/// One item of a list.
pub open spec fn print_list_item(
    sym: Seq<u8>,
    m: Mode,
    depth: nat,
    bound: nat,
    st: State,
    item: ListItem,
) -> State
    decreases levels_left(depth), list_rank(item), 0nat,
{
    match item {
        ListItem::GenericArg => print_generic_arg(sym, m, depth, bound, st),
        ListItem::Type => print_type(sym, m, depth, bound, st),
        ListItem::DynTrait => print_dyn_trait(sym, m, depth, bound, st),
    }
}

/// The items of a list up to its closing `E`, with `sep` between them, and
/// their number, `i` of them having been written. The list also ends at an
/// error.
///
/// An item always reads at least one byte or fails, so that less of the
/// symbol is left after it and the list is finite
/// ([`lemma_list_item_uses_up`](crate::v0::laws::lemma_list_item_uses_up)).
/// The definition asks for just that before it goes on, which makes it well
/// founded without the law.
pub open spec fn print_sep_list(
    sym: Seq<u8>,
    m: Mode,
    depth: nat,
    bound: nat,
    st: State,
    item: ListItem,
    sep: Seq<char>,
    i: nat,
) -> (State, nat)
    decreases levels_left(depth), list_rank(item), st.remaining(sym) + 1,
{
    if st.pos is Err {
        (st, i)
    } else if st.sees(sym, 'E' as u8) {
        (st.at(st.next() + 1), i)
    } else {
        let s = if i > 0 {
            st.emit(m, sep)
        } else {
            st
        };
        let after = print_list_item(sym, m, depth, bound, s, item);
        if after.remaining(sym) < st.remaining(sym) {
            print_sep_list(sym, m, depth, bound, after, item, sep, i + 1)
        } else {
            (after, i + 1)
        }
    }
}

/// A type.
pub open spec fn print_type(sym: Seq<u8>, m: Mode, depth: nat, bound: nat, st: State) -> State
    decreases levels_left(depth), 0nat, 0nat,
{
    match step(st, m, next_byte(sym, st.next())) {
        (None, st) => st,
        (Some(tag), st) => match basic_type(tag) {
            Some(name) => st.emit(m, name),
            None => match step(st, m, enter(depth, st.next())) {
                (None, st) => st,
                (Some(_), st) => if tag == 'R' as u8 || tag == 'Q' as u8 {
                    print_type_ref(sym, m, depth + 1, bound, st, tag)
                } else if tag == 'P' as u8 || tag == 'O' as u8 {
                    print_type_ptr(sym, m, depth + 1, bound, st, tag)
                } else if tag == 'A' as u8 || tag == 'S' as u8 {
                    print_type_array(sym, m, depth + 1, bound, st, tag)
                } else if tag == 'T' as u8 {
                    print_type_tuple(sym, m, depth + 1, bound, st)
                } else if tag == 'F' as u8 {
                    in_binder(sym, m, depth + 1, bound, st, Binder::FnSig)
                } else if tag == 'D' as u8 {
                    print_type_dyn(sym, m, depth + 1, bound, st)
                } else if tag == 'B' as u8 {
                    print_backref(sym, m, depth + 1, bound, st, Backref::Type).0
                } else {
                    print_path(sym, m, depth + 1, bound, st.at(st.next() - 1), false)
                },
            },
        },
    }
}

/// A reference, `R`, or a mutable reference, `Q`: `&`, the lifetime if it
/// is named, `mut` for `Q`, and the type.
pub open spec fn print_type_ref(
    sym: Seq<u8>,
    m: Mode,
    depth: nat,
    bound: nat,
    st: State,
    tag: u8,
) -> State
    decreases levels_left(depth), 9nat, 0nat,
{
    let st = st.emit(m, "&"@);
    if st.sees(sym, 'L' as u8) {
        let st = st.at(st.next() + 1);
        match step(st, m, integer_62(sym, st.next())) {
            (None, st) => st,
            (Some(lt), st) => {
                let st = if lt != 0 {
                    print_lifetime(m, bound, st, lt).emit(m, " "@)
                } else {
                    st
                };
                print_type_ref_target(sym, m, depth, bound, st, tag)
            },
        }
    } else {
        print_type_ref_target(sym, m, depth, bound, st, tag)
    }
}

/// What a reference refers to.
pub open spec fn print_type_ref_target(
    sym: Seq<u8>,
    m: Mode,
    depth: nat,
    bound: nat,
    st: State,
    tag: u8,
) -> State
    decreases levels_left(depth), 8nat, 0nat,
{
    let st = if tag != 'R' as u8 {
        st.emit(m, "mut "@)
    } else {
        st
    };
    print_type(sym, m, depth, bound, st)
}

/// A raw pointer: `P` is `*const`, `O` is `*mut`.
pub open spec fn print_type_ptr(
    sym: Seq<u8>,
    m: Mode,
    depth: nat,
    bound: nat,
    st: State,
    tag: u8,
) -> State
    decreases levels_left(depth), 9nat, 0nat,
{
    let st = st.emit(m, "*"@);
    let st = if tag != 'P' as u8 {
        st.emit(m, "mut "@)
    } else {
        st.emit(m, "const "@)
    };
    print_type(sym, m, depth, bound, st)
}

/// An array, `A`, written `[type; length]`, or a slice, `S`, written
/// `[type]`.
pub open spec fn print_type_array(
    sym: Seq<u8>,
    m: Mode,
    depth: nat,
    bound: nat,
    st: State,
    tag: u8,
) -> State
    decreases levels_left(depth), 9nat, 0nat,
{
    let st = print_type(sym, m, depth, bound, st.emit(m, "["@));
    let st = if tag == 'A' as u8 {
        print_const(sym, m, depth, bound, st.emit(m, "; "@))
    } else {
        st
    };
    st.emit(m, "]"@)
}

/// A tuple, `T`: the types between parentheses, a single one followed by a
/// comma.
pub open spec fn print_type_tuple(
    sym: Seq<u8>,
    m: Mode,
    depth: nat,
    bound: nat,
    st: State,
) -> State
    decreases levels_left(depth), 9nat, 0nat,
{
    let (st, count) = print_sep_list(
        sym,
        m,
        depth,
        bound,
        st.emit(m, "("@),
        ListItem::Type,
        ", "@,
        0,
    );
    let st = if count == 1 {
        st.emit(m, ","@)
    } else {
        st
    };
    st.emit(m, ")"@)
}

/// A trait object, `D`: `dyn`, the traits under their binder, and `L` with
/// the object's lifetime, which is written behind ` + ` unless it is `'_`.
pub open spec fn print_type_dyn(
    sym: Seq<u8>,
    m: Mode,
    depth: nat,
    bound: nat,
    st: State,
) -> State
    decreases levels_left(depth), 9nat, 0nat,
{
    let st = in_binder(sym, m, depth, bound, st.emit(m, "dyn "@), Binder::DynTraits);
    if !st.sees(sym, 'L' as u8) {
        st.fail(m, ParseError::Invalid)
    } else {
        let st = st.at(st.next() + 1);
        match step(st, m, integer_62(sym, st.next())) {
            (None, st) => st,
            (Some(lt), st) => if lt != 0 {
                print_lifetime(m, bound, st.emit(m, " + "@), lt)
            } else {
                st
            },
        }
    }
}

/// A binder, `G` and the number of lifetimes it binds, written
/// `for<'a, 'b> ` in front of what it encloses; without `G` nothing is
/// bound and nothing written. More bound lifetimes than a 32-bit counter
/// holds are an error. While not writing, lifetimes are not counted.
pub open spec fn in_binder(
    sym: Seq<u8>,
    m: Mode,
    depth: nat,
    bound: nat,
    st: State,
    inner: Binder,
) -> State
    decreases levels_left(depth), 8nat, 0nat,
{
    match step(st, m, opt_integer_62(sym, st.next(), 'G' as u8)) {
        (None, st) => st,
        (Some(n), st) => if !m.printing {
            print_binder_body(sym, m, depth, bound, st, inner)
        } else if bound + n > u32::MAX {
            st.fail(m, ParseError::Invalid)
        } else if n > 0 {
            let st = binder_lifetimes(m, bound, st.emit(m, "for<"@), 0, n as nat);
            print_binder_body(sym, m, depth, (bound + n) as nat, st.emit(m, "> "@), inner)
        } else {
            print_binder_body(sym, m, depth, bound, st, inner)
        },
    }
}

/// What a binder encloses.
pub open spec fn print_binder_body(
    sym: Seq<u8>,
    m: Mode,
    depth: nat,
    bound: nat,
    st: State,
    inner: Binder,
) -> State
    decreases levels_left(depth), 7nat, 1nat,
{
    match inner {
        Binder::FnSig => print_fn_sig(sym, m, depth, bound, st),
        Binder::DynTraits => print_sep_list(
            sym,
            m,
            depth,
            bound,
            st,
            ListItem::DynTrait,
            " + "@,
            0,
        ).0,
    }
}

/// The signature of a function pointer: `U` for `unsafe`, `K` and an ABI
/// (`C`, or an identifier without Punycode), the parameter types up to `E`,
/// and the return type, which is not written if it is `()`.
pub open spec fn print_fn_sig(sym: Seq<u8>, m: Mode, depth: nat, bound: nat, st: State) -> State
    decreases levels_left(depth), 4nat, 0nat,
{
    let is_unsafe = st.sees(sym, 'U' as u8);
    let st = if is_unsafe {
        st.at(st.next() + 1)
    } else {
        st
    };
    if st.sees(sym, 'K' as u8) {
        let st = st.at(st.next() + 1);
        if st.sees(sym, 'C' as u8) {
            print_fn_sig_tail(sym, m, depth, bound, st.at(st.next() + 1), is_unsafe, Some("C"@))
        } else {
            match step(st, m, ident(sym, st.next())) {
                (None, st) => st,
                (Some(abi), st) => if abi.ascii.len() == 0 || abi.punycode.len() != 0 {
                    st.fail(m, ParseError::Invalid)
                } else {
                    print_fn_sig_tail(
                        sym,
                        m,
                        depth,
                        bound,
                        st,
                        is_unsafe,
                        Some(abi_text(abi.ascii)),
                    )
                },
            }
        }
    } else {
        print_fn_sig_tail(sym, m, depth, bound, st, is_unsafe, None)
    }
}

/// The written part of a function pointer's signature.
pub open spec fn print_fn_sig_tail(
    sym: Seq<u8>,
    m: Mode,
    depth: nat,
    bound: nat,
    st: State,
    is_unsafe: bool,
    abi: Option<Seq<char>>,
) -> State
    decreases levels_left(depth), 3nat, 1nat,
{
    let st = if is_unsafe {
        st.emit(m, "unsafe "@)
    } else {
        st
    };
    let st = match abi {
        Some(name) => st.emit(m, "extern \""@).emit(m, name).emit(m, "\" "@),
        None => st,
    };
    let st = print_sep_list(
        sym,
        m,
        depth,
        bound,
        st.emit(m, "fn("@),
        ListItem::Type,
        ", "@,
        0,
    ).0;
    let st = st.emit(m, ")"@);
    if st.sees(sym, 'u' as u8) {
        st.at(st.next() + 1)
    } else {
        print_type(sym, m, depth, bound, st.emit(m, " -> "@))
    }
}

/// The path of a trait in a trait object, and whether its `<` was left
/// open for associated type bindings to follow: that is so for a generic
/// instance, `I`, and for a backreference, `B`, to one.
pub open spec fn print_path_maybe_open_generics(
    sym: Seq<u8>,
    m: Mode,
    depth: nat,
    bound: nat,
    st: State,
) -> (State, bool)
    decreases levels_left(depth), 3nat, 1nat,
{
    if st.sees(sym, 'B' as u8) {
        print_backref(sym, m, depth, bound, st.at(st.next() + 1), Backref::OpenPath)
    } else if st.sees(sym, 'I' as u8) {
        let st = print_path(sym, m, depth, bound, st.at(st.next() + 1), false);
        let st = print_sep_list(
            sym,
            m,
            depth,
            bound,
            st.emit(m, "<"@),
            ListItem::GenericArg,
            ", "@,
            0,
        ).0;
        (st, true)
    } else {
        (print_path(sym, m, depth, bound, st, false), false)
    }
}

/// A trait of a trait object: its path, then each `p`, name and type as the
/// binding `name = type` among the trait's generic arguments.
pub open spec fn print_dyn_trait(sym: Seq<u8>, m: Mode, depth: nat, bound: nat, st: State) -> State
    decreases levels_left(depth), 5nat, 0nat,
{
    let (st, open) = print_path_maybe_open_generics(sym, m, depth, bound, st);
    print_dyn_bindings(sym, m, depth, bound, st, open)
}

/// The associated type bindings of a trait, `open` saying whether `<` was
/// written already.
///
/// A binding always reads at least one byte, so that less of the symbol is
/// left after it and the bindings are finite
/// ([`lemma_type_uses_up`](crate::v0::laws::lemma_type_uses_up)). The
/// definition asks for just that before it goes on, which makes it well
/// founded without the law.
pub open spec fn print_dyn_bindings(
    sym: Seq<u8>,
    m: Mode,
    depth: nat,
    bound: nat,
    st: State,
    open: bool,
) -> State
    decreases levels_left(depth), 4nat, st.remaining(sym),
{
    if st.sees(sym, 'p' as u8) {
        let s = st.at(st.next() + 1);
        let s = if !open {
            s.emit(m, "<"@)
        } else {
            s.emit(m, ", "@)
        };
        match step(s, m, ident(sym, s.next())) {
            (None, s) => s,
            (Some(name), s) => {
                let after = print_type(
                    sym,
                    m,
                    depth,
                    bound,
                    s.emit(m, ident_text(name)).emit(m, " = "@),
                );
                if after.remaining(sym) < st.remaining(sym) {
                    print_dyn_bindings(sym, m, depth, bound, after, true)
                } else {
                    after
                }
            },
        }
    } else if open {
        st.emit(m, ">"@)
    } else {
        st
    }
}

/// A constant: a backreference, the placeholder `p`, written `_`, or the
/// tag of the constant's type and the value. Unless alternate, the value is
/// followed by the name of its type.
pub open spec fn print_const(sym: Seq<u8>, m: Mode, depth: nat, bound: nat, st: State) -> State
    decreases levels_left(depth), 0nat, 0nat,
{
    match step(st, m, enter(depth, st.next())) {
        (None, st) => st,
        (Some(_), st) => if st.sees(sym, 'B' as u8) {
            print_backref(sym, m, depth + 1, bound, st.at(st.next() + 1), Backref::Const).0
        } else {
            match step(st, m, next_byte(sym, st.next())) {
                (None, st) => st,
                (Some(ty_tag), st) => if ty_tag == 'p' as u8 {
                    st.emit(m, "_"@)
                } else if !is_const_tag(ty_tag) {
                    st.fail(m, ParseError::Invalid)
                } else {
                    let st = print_const_value(sym, m, st, ty_tag);
                    if m.printing && !m.alternate {
                        st.emit(m, basic_type(ty_tag).unwrap())
                    } else {
                        st
                    }
                },
            }
        },
    }
}

/// The walk of the symbol `sym`, its prefix taken off, that writes its
/// text, a path in value position, into a sink of at most `limit` bytes.
pub open spec fn symbol_write(sym: Seq<u8>, alternate: bool, limit: Option<nat>) -> State {
    print_path(sym, Mode { printing: true, alternate, limit }, 0, 0, State::start(), true)
}

/// The text of the symbol `sym`, its prefix taken off.
pub open spec fn symbol_text(sym: Seq<u8>, alternate: bool) -> Seq<char> {
    symbol_write(sym, alternate, None).out
}

/// Where reading one path from `next` without writing ends, or the error.
pub open spec fn skip_path(sym: Seq<u8>, next: int) -> Result<int, ParseError> {
    match print_path(
        sym,
        Mode::reading(),
        0,
        0,
        State { pos: Ok(next), out: Seq::empty() },
        false,
    ).pos {
        Ok(end) => Ok(end),
        Err(Stop::Parse(e)) => Err(e),
        Err(Stop::Full) => Err(ParseError::Invalid),
    }
}

} // verus!
