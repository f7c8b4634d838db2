//! Laws of the grammar: reading never goes back, and never leaves the
//! symbol.
//!
//! Every production either fails or leaves the position where it was or
//! further on, and a path, a type, a constant, a generic argument and a
//! trait of a trait object, where they do not fail, have read at least one
//! byte. An error, once met, stays. This is what makes lists finite.

use crate::bytes::lemma_decimal_run_bounds;
use crate::v0::grammar::abi_text;
use crate::v0::grammar::basic_type;
use crate::v0::grammar::binder_lifetimes;
use crate::v0::grammar::enter;
use crate::v0::grammar::in_binder;
use crate::v0::grammar::print_backref;
use crate::v0::grammar::print_binder_body;
use crate::v0::grammar::print_const;
use crate::v0::grammar::print_const_value;
use crate::v0::grammar::print_dyn_bindings;
use crate::v0::grammar::print_dyn_trait;
use crate::v0::grammar::print_fn_sig;
use crate::v0::grammar::print_fn_sig_tail;
use crate::v0::grammar::print_generic_arg;
use crate::v0::grammar::print_lifetime;
use crate::v0::grammar::print_list_item;
use crate::v0::grammar::print_path;
use crate::v0::grammar::print_path_crate;
use crate::v0::grammar::print_path_impl;
use crate::v0::grammar::print_path_impl_body;
use crate::v0::grammar::print_path_instance;
use crate::v0::grammar::print_path_maybe_open_generics;
use crate::v0::grammar::print_path_nested;
use crate::v0::grammar::print_sep_list;
use crate::v0::grammar::print_type;
use crate::v0::grammar::print_type_array;
use crate::v0::grammar::print_type_dyn;
use crate::v0::grammar::print_type_ptr;
use crate::v0::grammar::print_type_ref;
use crate::v0::grammar::print_type_ref_target;
use crate::v0::grammar::print_type_tuple;
use crate::v0::grammar::levels_left;
use crate::v0::grammar::list_rank;
use crate::v0::grammar::step;
use crate::v0::grammar::Backref;
use crate::v0::grammar::Binder;
use crate::v0::grammar::ListItem;
use crate::v0::grammar::Mode;
use crate::v0::grammar::State;
use crate::v0::parser::backref;
use crate::v0::parser::digit_10;
use crate::v0::parser::disambiguator;
use crate::v0::parser::hex_nibbles;
use crate::v0::parser::ident;
use crate::v0::parser::integer_62;
use crate::v0::parser::integer_62_digits;
use crate::v0::parser::lemma_hex_nibbles_end_bounds;
use crate::v0::parser::namespace;
use crate::v0::parser::next_byte;
use crate::v0::parser::opt_integer_62;
use crate::v0::parser::peek_at;
use crate::v0::parser::Target;
use crate::v0::punycode::ident_text;
use crate::v0::ParseError;
use crate::v0::MAX_DEPTH;
use vstd::prelude::*;

verus! {

/// A read that succeeds ends at or behind `p`, within `len` bytes.
pub open spec fn advances<T>(read: Result<(T, int), ParseError>, p: int, len: nat) -> bool {
    match read {
        Ok((_, after)) => p <= after <= len,
        Err(_) => true,
    }
}

/// A read that succeeds ends behind `p`, within `len` bytes.
pub open spec fn advances_strictly<T>(read: Result<(T, int), ParseError>, p: int, len: nat) -> bool {
    match read {
        Ok((_, after)) => p < after <= len,
        Err(_) => true,
    }
}

/// A backreference that is read at `p`, behind its `B`, ends behind `p` and
/// leads to a position before the `B`, one level deeper and within
/// `MAX_DEPTH`.
pub open spec fn leads_back(
    read: Result<(Target, int), ParseError>,
    p: int,
    depth: nat,
    len: nat,
) -> bool {
    match read {
        Ok((t, after)) => p < after <= len && 0 <= t.next < p - 1 && t.depth == depth + 1 && depth
            < MAX_DEPTH,
        Err(_) => true,
    }
}

proof fn lemma_integer_62_digits_advance(sym: Seq<u8>, next: int, acc: nat)
    requires
        0 <= next <= sym.len(),
    ensures
        advances_strictly(integer_62_digits(sym, next, acc), next, sym.len()),
    decreases sym.len() - next,
{
    if let Some(b) = peek_at(sym, next) {
        if b != '_' as u8 {
            if let Some(d) = crate::v0::parser::digit_62_value(b) {
                if acc * 62 + d <= u64::MAX {
                    lemma_integer_62_digits_advance(sym, next + 1, (acc * 62 + d) as nat);
                }
            }
        }
    }
}

/// The readers never go back: each ends, if it succeeds, at or behind the
/// position it began at, and within the symbol. An integer, a run of hex
/// digits, an identifier and a backreference end behind it.
pub proof fn lemma_readers_advance(sym: Seq<u8>, p: int)
    requires
        0 <= p <= sym.len(),
    ensures
        advances_strictly(next_byte(sym, p), p, sym.len()),
        advances_strictly(namespace(sym, p), p, sym.len()),
        advances_strictly(integer_62(sym, p), p, sym.len()),
        forall|tag: u8| advances(#[trigger] opt_integer_62(sym, p, tag), p, sym.len()),
        advances(disambiguator(sym, p), p, sym.len()),
        advances_strictly(hex_nibbles(sym, p), p, sym.len()),
        advances_strictly(ident(sym, p), p, sym.len()),
        forall|depth: nat| leads_back(#[trigger] backref(sym, p, depth), p, depth, sym.len()),
{
    lemma_integer_62_digits_advance(sym, p, 0);
    if p < sym.len() {
        lemma_integer_62_digits_advance(sym, p + 1, 0);
    }
    lemma_hex_nibbles_end_bounds(sym, p);
    let at_len = if peek_at(sym, p) == Some('u' as u8) {
        p + 1
    } else {
        p
    };
    if let Ok((d0, after_d0)) = digit_10(sym, at_len) {
        lemma_decimal_run_bounds(sym, after_d0, d0 as nat);
    }
}

/// The position lies within the symbol.
pub open spec fn within(sym: Seq<u8>, st: State) -> bool {
    st.pos is Ok ==> 0 <= st.next() <= sym.len()
}

/// `after` lies within the symbol, and if it still reads, so did `st`, at
/// the same position or before.
pub open spec fn continues(sym: Seq<u8>, st: State, after: State) -> bool {
    &&& within(sym, after)
    &&& after.pos is Ok ==> st.pos is Ok && st.next() <= after.next()
}

/// `after` lies within the symbol, and if it still reads, so did `st`, at
/// an earlier position.
pub open spec fn progresses(sym: Seq<u8>, st: State, after: State) -> bool {
    &&& within(sym, after)
    &&& after.pos is Ok ==> st.pos is Ok && st.next() < after.next()
}

/// Writing the lifetimes of a binder reads nothing.
pub proof fn lemma_binder_lifetimes(m: Mode, bound: nat, st: State, i: nat, n: nat)
    ensures
        binder_lifetimes(m, bound, st, i, n).pos is Ok ==> binder_lifetimes(m, bound, st, i, n).pos
            == st.pos,
    decreases n - i,
{
    if i < n {
        let s = if i > 0 {
            st.emit(m, ", "@)
        } else {
            st
        };
        lemma_binder_lifetimes(m, bound, print_lifetime(m, bound + i + 1, s, 1), i + 1, n);
    }
}

pub proof fn lemma_print_path_crate(sym: Seq<u8>, m: Mode, st: State)
    requires
        within(sym, st),
    ensures
        continues(sym, st, print_path_crate(sym, m, st)),
{
    if st.pos is Ok {
        lemma_readers_advance(sym, st.next());
        let r = step(st, m, disambiguator(sym, st.next()));
        if r.0 is Some {
            lemma_readers_advance(sym, r.1.next());
        }
    }
}

pub proof fn lemma_print_const_value(sym: Seq<u8>, m: Mode, st: State, ty_tag: u8)
    requires
        within(sym, st),
    ensures
        continues(sym, st, print_const_value(sym, m, st, ty_tag)),
{
    if st.pos is Ok {
        lemma_readers_advance(sym, st.next());
        if st.next() < sym.len() {
            lemma_readers_advance(sym, st.next() + 1);
        }
    }
}

/// A backreference, where it is read, is read past; the text of its target
/// is all that the target adds.
pub proof fn lemma_print_backref(
    sym: Seq<u8>,
    m: Mode,
    depth: nat,
    bound: nat,
    st: State,
    target: Backref,
)
    requires
        within(sym, st),
    ensures
        progresses(sym, st, print_backref(sym, m, depth, bound, st, target).0),
{
    if st.pos is Ok {
        lemma_readers_advance(sym, st.next());
    }
}

/// A path, where it does not fail, has read at least one byte.
pub proof fn lemma_print_path(
    sym: Seq<u8>,
    m: Mode,
    depth: nat,
    bound: nat,
    st: State,
    in_value: bool,
)
    requires
        within(sym, st),
    ensures
        progresses(sym, st, print_path(sym, m, depth, bound, st, in_value)),
    decreases levels_left(depth), 0nat, 0nat,
{
    let r0 = step(st, m, enter(depth, st.next()));
    if r0.0 is Some {
        let r1 = step(r0.1, m, next_byte(sym, r0.1.next()));
        if let Some(tag) = r1.0 {
            let s = r1.1;
            if tag == 'C' as u8 {
                lemma_print_path_crate(sym, m, s);
            } else if tag == 'N' as u8 {
                lemma_print_path_nested(sym, m, depth + 1, bound, s, in_value);
            } else if tag == 'M' as u8 || tag == 'X' as u8 || tag == 'Y' as u8 {
                lemma_print_path_impl(sym, m, depth + 1, bound, s, tag);
            } else if tag == 'I' as u8 {
                lemma_print_path_instance(sym, m, depth + 1, bound, s, in_value);
            } else if tag == 'B' as u8 {
                lemma_print_backref(sym, m, depth + 1, bound, s, Backref::Path { in_value });
            }
        }
    }
}

pub proof fn lemma_print_path_nested(
    sym: Seq<u8>,
    m: Mode,
    depth: nat,
    bound: nat,
    st: State,
    in_value: bool,
)
    requires
        within(sym, st),
    ensures
        continues(sym, st, print_path_nested(sym, m, depth, bound, st, in_value)),
    decreases levels_left(depth), 9nat, 0nat,
{
    let r = step(st, m, namespace(sym, st.next()));
    if r.0 is Some {
        lemma_print_path(sym, m, depth, bound, r.1, in_value);
        let s1 = print_path(sym, m, depth, bound, r.1, in_value);
        let s2 = if s1.pos is Err {
            s1.emit(m, "::"@)
        } else {
            s1
        };
        if s2.pos is Ok {
            lemma_readers_advance(sym, s2.next());
            let r2 = step(s2, m, disambiguator(sym, s2.next()));
            if r2.0 is Some {
                lemma_readers_advance(sym, r2.1.next());
            }
        }
    }
}

pub proof fn lemma_print_path_impl(
    sym: Seq<u8>,
    m: Mode,
    depth: nat,
    bound: nat,
    st: State,
    tag: u8,
)
    requires
        within(sym, st),
    ensures
        continues(sym, st, print_path_impl(sym, m, depth, bound, st, tag)),
    decreases levels_left(depth), 9nat, 0nat,
{
    if tag != 'Y' as u8 {
        if st.pos is Ok {
            lemma_readers_advance(sym, st.next());
        }
        let r = step(st, m, disambiguator(sym, st.next()));
        if r.0 is Some {
            let from = State { pos: r.1.pos, out: Seq::empty() };
            lemma_print_path(sym, m.skipping(), depth, bound, from, false);
            let skipped = print_path(sym, m.skipping(), depth, bound, from, false);
            lemma_print_path_impl_body(
                sym,
                m,
                depth,
                bound,
                State { pos: skipped.pos, out: r.1.out },
                tag,
            );
        }
    } else {
        lemma_print_path_impl_body(sym, m, depth, bound, st, tag);
    }
}

pub proof fn lemma_print_path_impl_body(
    sym: Seq<u8>,
    m: Mode,
    depth: nat,
    bound: nat,
    st: State,
    tag: u8,
)
    requires
        within(sym, st),
    ensures
        continues(sym, st, print_path_impl_body(sym, m, depth, bound, st, tag)),
    decreases levels_left(depth), 8nat, 0nat,
{
    lemma_print_type(sym, m, depth, bound, st.emit(m, "<"@));
    let s1 = print_type(sym, m, depth, bound, st.emit(m, "<"@));
    if tag != 'M' as u8 {
        lemma_print_path(sym, m, depth, bound, s1.emit(m, " as "@), false);
    }
}

pub proof fn lemma_print_path_instance(
    sym: Seq<u8>,
    m: Mode,
    depth: nat,
    bound: nat,
    st: State,
    in_value: bool,
)
    requires
        within(sym, st),
    ensures
        continues(sym, st, print_path_instance(sym, m, depth, bound, st, in_value)),
    decreases levels_left(depth), 9nat, 0nat,
{
    lemma_print_path(sym, m, depth, bound, st, in_value);
    let s1 = print_path(sym, m, depth, bound, st, in_value);
    let s2 = if in_value {
        s1.emit(m, "::"@)
    } else {
        s1
    };
    lemma_print_sep_list(sym, m, depth, bound, s2.emit(m, "<"@), ListItem::GenericArg, ", "@, 0);
}

/// A generic argument, where it does not fail, has read at least one byte.
pub proof fn lemma_print_generic_arg(sym: Seq<u8>, m: Mode, depth: nat, bound: nat, st: State)
    requires
        within(sym, st),
    ensures
        progresses(sym, st, print_generic_arg(sym, m, depth, bound, st)),
    decreases levels_left(depth), 1nat, 0nat,
{
    if st.sees(sym, 'L' as u8) {
        lemma_readers_advance(sym, st.next() + 1);
    } else if st.sees(sym, 'K' as u8) {
        lemma_print_const(sym, m, depth, bound, st.at(st.next() + 1));
    } else {
        lemma_print_type(sym, m, depth, bound, st);
    }
}

/// An item of a list, where it does not fail, has read at least one byte.
pub proof fn lemma_print_list_item(
    sym: Seq<u8>,
    m: Mode,
    depth: nat,
    bound: nat,
    st: State,
    item: ListItem,
)
    requires
        within(sym, st),
    ensures
        progresses(sym, st, print_list_item(sym, m, depth, bound, st, item)),
    decreases levels_left(depth), list_rank(item), 0nat,
{
    match item {
        ListItem::GenericArg => lemma_print_generic_arg(sym, m, depth, bound, st),
        ListItem::Type => lemma_print_type(sym, m, depth, bound, st),
        ListItem::DynTrait => lemma_print_dyn_trait(sym, m, depth, bound, st),
    }
}

/// After an item of a list less of the symbol is left than before it: a list
/// never stops for want of progress.
pub proof fn lemma_list_item_uses_up(
    sym: Seq<u8>,
    m: Mode,
    depth: nat,
    bound: nat,
    st: State,
    item: ListItem,
)
    requires
        within(sym, st),
        st.pos is Ok,
    ensures
        print_list_item(sym, m, depth, bound, st, item).remaining(sym) < st.remaining(sym),
{
    lemma_print_list_item(sym, m, depth, bound, st, item);
}

pub proof fn lemma_print_sep_list(
    sym: Seq<u8>,
    m: Mode,
    depth: nat,
    bound: nat,
    st: State,
    item: ListItem,
    sep: Seq<char>,
    i: nat,
)
    requires
        within(sym, st),
    ensures
        continues(sym, st, print_sep_list(sym, m, depth, bound, st, item, sep, i).0),
    decreases levels_left(depth), list_rank(item), st.remaining(sym) + 1,
{
    if st.pos is Ok && !st.sees(sym, 'E' as u8) {
        let s = if i > 0 {
            st.emit(m, sep)
        } else {
            st
        };
        lemma_print_list_item(sym, m, depth, bound, s, item);
        let after = print_list_item(sym, m, depth, bound, s, item);
        if after.remaining(sym) < st.remaining(sym) {
            lemma_print_sep_list(sym, m, depth, bound, after, item, sep, i + 1);
        }
    }
}

/// A type, where it does not fail, has read at least one byte.
pub proof fn lemma_print_type(sym: Seq<u8>, m: Mode, depth: nat, bound: nat, st: State)
    requires
        within(sym, st),
    ensures
        progresses(sym, st, print_type(sym, m, depth, bound, st)),
    decreases levels_left(depth), 0nat, 0nat,
{
    let r = step(st, m, next_byte(sym, st.next()));
    if let Some(tag) = r.0 {
        if basic_type(tag) is None {
            let r2 = step(r.1, m, enter(depth, r.1.next()));
            if r2.0 is Some {
                let s = r2.1;
                if tag == 'R' as u8 || tag == 'Q' as u8 {
                    lemma_print_type_ref(sym, m, depth + 1, bound, s, tag);
                } else if tag == 'P' as u8 || tag == 'O' as u8 {
                    lemma_print_type_ptr(sym, m, depth + 1, bound, s, tag);
                } else if tag == 'A' as u8 || tag == 'S' as u8 {
                    lemma_print_type_array(sym, m, depth + 1, bound, s, tag);
                } else if tag == 'T' as u8 {
                    lemma_print_type_tuple(sym, m, depth + 1, bound, s);
                } else if tag == 'F' as u8 {
                    lemma_in_binder(sym, m, depth + 1, bound, s, Binder::FnSig);
                } else if tag == 'D' as u8 {
                    lemma_print_type_dyn(sym, m, depth + 1, bound, s);
                } else if tag == 'B' as u8 {
                    lemma_print_backref(sym, m, depth + 1, bound, s, Backref::Type);
                } else {
                    lemma_print_path(sym, m, depth + 1, bound, s.at(s.next() - 1), false);
                }
            }
        }
    }
}

pub proof fn lemma_print_type_ref(
    sym: Seq<u8>,
    m: Mode,
    depth: nat,
    bound: nat,
    st: State,
    tag: u8,
)
    requires
        within(sym, st),
    ensures
        continues(sym, st, print_type_ref(sym, m, depth, bound, st, tag)),
    decreases levels_left(depth), 9nat, 0nat,
{
    let s0 = st.emit(m, "&"@);
    if s0.sees(sym, 'L' as u8) {
        let s1 = s0.at(s0.next() + 1);
        lemma_readers_advance(sym, s1.next());
        let r = step(s1, m, integer_62(sym, s1.next()));
        if let Some(lt) = r.0 {
            let s2 = if lt != 0 {
                print_lifetime(m, bound, r.1, lt).emit(m, " "@)
            } else {
                r.1
            };
            lemma_print_type_ref_target(sym, m, depth, bound, s2, tag);
        }
    } else {
        lemma_print_type_ref_target(sym, m, depth, bound, s0, tag);
    }
}

pub proof fn lemma_print_type_ref_target(
    sym: Seq<u8>,
    m: Mode,
    depth: nat,
    bound: nat,
    st: State,
    tag: u8,
)
    requires
        within(sym, st),
    ensures
        continues(sym, st, print_type_ref_target(sym, m, depth, bound, st, tag)),
    decreases levels_left(depth), 8nat, 0nat,
{
    let s = if tag != 'R' as u8 {
        st.emit(m, "mut "@)
    } else {
        st
    };
    lemma_print_type(sym, m, depth, bound, s);
}

pub proof fn lemma_print_type_ptr(
    sym: Seq<u8>,
    m: Mode,
    depth: nat,
    bound: nat,
    st: State,
    tag: u8,
)
    requires
        within(sym, st),
    ensures
        continues(sym, st, print_type_ptr(sym, m, depth, bound, st, tag)),
    decreases levels_left(depth), 9nat, 0nat,
{
    let s0 = st.emit(m, "*"@);
    let s1 = if tag != 'P' as u8 {
        s0.emit(m, "mut "@)
    } else {
        s0.emit(m, "const "@)
    };
    lemma_print_type(sym, m, depth, bound, s1);
}

pub proof fn lemma_print_type_array(
    sym: Seq<u8>,
    m: Mode,
    depth: nat,
    bound: nat,
    st: State,
    tag: u8,
)
    requires
        within(sym, st),
    ensures
        continues(sym, st, print_type_array(sym, m, depth, bound, st, tag)),
    decreases levels_left(depth), 9nat, 0nat,
{
    lemma_print_type(sym, m, depth, bound, st.emit(m, "["@));
    let s1 = print_type(sym, m, depth, bound, st.emit(m, "["@));
    if tag == 'A' as u8 {
        lemma_print_const(sym, m, depth, bound, s1.emit(m, "; "@));
    }
}

pub proof fn lemma_print_type_tuple(sym: Seq<u8>, m: Mode, depth: nat, bound: nat, st: State)
    requires
        within(sym, st),
    ensures
        continues(sym, st, print_type_tuple(sym, m, depth, bound, st)),
    decreases levels_left(depth), 9nat, 0nat,
{
    lemma_print_sep_list(sym, m, depth, bound, st.emit(m, "("@), ListItem::Type, ", "@, 0);
}

pub proof fn lemma_print_type_dyn(sym: Seq<u8>, m: Mode, depth: nat, bound: nat, st: State)
    requires
        within(sym, st),
    ensures
        continues(sym, st, print_type_dyn(sym, m, depth, bound, st)),
    decreases levels_left(depth), 9nat, 0nat,
{
    lemma_in_binder(sym, m, depth, bound, st.emit(m, "dyn "@), Binder::DynTraits);
    let s1 = in_binder(sym, m, depth, bound, st.emit(m, "dyn "@), Binder::DynTraits);
    if s1.sees(sym, 'L' as u8) {
        lemma_readers_advance(sym, s1.next() + 1);
    }
}

pub proof fn lemma_in_binder(
    sym: Seq<u8>,
    m: Mode,
    depth: nat,
    bound: nat,
    st: State,
    inner: Binder,
)
    requires
        within(sym, st),
    ensures
        continues(sym, st, in_binder(sym, m, depth, bound, st, inner)),
    decreases levels_left(depth), 8nat, 0nat,
{
    if st.pos is Ok {
        lemma_readers_advance(sym, st.next());
    }
    let r = step(st, m, opt_integer_62(sym, st.next(), 'G' as u8));
    if let Some(n) = r.0 {
        let s = r.1;
        if !m.printing {
            lemma_print_binder_body(sym, m, depth, bound, s, inner);
        } else if bound + n > u32::MAX {
        } else if n > 0 {
            lemma_binder_lifetimes(m, bound, s.emit(m, "for<"@), 0, n as nat);
            let s1 = binder_lifetimes(m, bound, s.emit(m, "for<"@), 0, n as nat);
            lemma_print_binder_body(
                sym,
                m,
                depth,
                (bound + n) as nat,
                s1.emit(m, "> "@),
                inner,
            );
        } else {
            lemma_print_binder_body(sym, m, depth, bound, s, inner);
        }
    }
}

pub proof fn lemma_print_binder_body(
    sym: Seq<u8>,
    m: Mode,
    depth: nat,
    bound: nat,
    st: State,
    inner: Binder,
)
    requires
        within(sym, st),
    ensures
        continues(sym, st, print_binder_body(sym, m, depth, bound, st, inner)),
    decreases levels_left(depth), 7nat, 1nat,
{
    match inner {
        Binder::FnSig => lemma_print_fn_sig(sym, m, depth, bound, st),
        Binder::DynTraits => lemma_print_sep_list(
            sym,
            m,
            depth,
            bound,
            st,
            ListItem::DynTrait,
            " + "@,
            0,
        ),
    }
}

pub proof fn lemma_print_fn_sig(sym: Seq<u8>, m: Mode, depth: nat, bound: nat, st: State)
    requires
        within(sym, st),
    ensures
        continues(sym, st, print_fn_sig(sym, m, depth, bound, st)),
    decreases levels_left(depth), 4nat, 0nat,
{
    let is_unsafe = st.sees(sym, 'U' as u8);
    let s = if is_unsafe {
        st.at(st.next() + 1)
    } else {
        st
    };
    if s.sees(sym, 'K' as u8) {
        let s1 = s.at(s.next() + 1);
        if s1.sees(sym, 'C' as u8) {
            lemma_print_fn_sig_tail(
                sym,
                m,
                depth,
                bound,
                s1.at(s1.next() + 1),
                is_unsafe,
                Some("C"@),
            );
        } else {
            lemma_readers_advance(sym, s1.next());
            let r = step(s1, m, ident(sym, s1.next()));
            if let Some(abi) = r.0 {
                if !(abi.ascii.len() == 0 || abi.punycode.len() != 0) {
                    lemma_print_fn_sig_tail(
                        sym,
                        m,
                        depth,
                        bound,
                        r.1,
                        is_unsafe,
                        Some(abi_text(abi.ascii)),
                    );
                }
            }
        }
    } else {
        lemma_print_fn_sig_tail(sym, m, depth, bound, s, is_unsafe, None);
    }
}

pub proof fn lemma_print_fn_sig_tail(
    sym: Seq<u8>,
    m: Mode,
    depth: nat,
    bound: nat,
    st: State,
    is_unsafe: bool,
    abi: Option<Seq<char>>,
)
    requires
        within(sym, st),
    ensures
        continues(sym, st, print_fn_sig_tail(sym, m, depth, bound, st, is_unsafe, abi)),
    decreases levels_left(depth), 3nat, 1nat,
{
    let s1 = if is_unsafe {
        st.emit(m, "unsafe "@)
    } else {
        st
    };
    let s2 = match abi {
        Some(name) => s1.emit(m, "extern \""@).emit(m, name).emit(m, "\" "@),
        None => s1,
    };
    lemma_print_sep_list(sym, m, depth, bound, s2.emit(m, "fn("@), ListItem::Type, ", "@, 0);
    let s3 = print_sep_list(
        sym,
        m,
        depth,
        bound,
        s2.emit(m, "fn("@),
        ListItem::Type,
        ", "@,
        0,
    ).0;
    let s4 = s3.emit(m, ")"@);
    if !s4.sees(sym, 'u' as u8) {
        lemma_print_type(sym, m, depth, bound, s4.emit(m, " -> "@));
    }
}

/// The path of a trait, where it does not fail, has read at least one
/// byte.
pub proof fn lemma_print_path_maybe_open_generics(
    sym: Seq<u8>,
    m: Mode,
    depth: nat,
    bound: nat,
    st: State,
)
    requires
        within(sym, st),
    ensures
        progresses(sym, st, print_path_maybe_open_generics(sym, m, depth, bound, st).0),
    decreases levels_left(depth), 3nat, 1nat,
{
    if st.sees(sym, 'B' as u8) {
        lemma_print_backref(sym, m, depth, bound, st.at(st.next() + 1), Backref::OpenPath);
    } else if st.sees(sym, 'I' as u8) {
        lemma_print_path(sym, m, depth, bound, st.at(st.next() + 1), false);
        let s1 = print_path(sym, m, depth, bound, st.at(st.next() + 1), false);
        lemma_print_sep_list(
            sym,
            m,
            depth,
            bound,
            s1.emit(m, "<"@),
            ListItem::GenericArg,
            ", "@,
            0,
        );
    } else {
        lemma_print_path(sym, m, depth, bound, st, false);
    }
}

/// A trait of a trait object, where it does not fail, has read at least one
/// byte.
pub proof fn lemma_print_dyn_trait(sym: Seq<u8>, m: Mode, depth: nat, bound: nat, st: State)
    requires
        within(sym, st),
    ensures
        progresses(sym, st, print_dyn_trait(sym, m, depth, bound, st)),
    decreases levels_left(depth), 5nat, 0nat,
{
    lemma_print_path_maybe_open_generics(sym, m, depth, bound, st);
    let r = print_path_maybe_open_generics(sym, m, depth, bound, st);
    lemma_print_dyn_bindings(sym, m, depth, bound, r.0, r.1);
}

pub proof fn lemma_print_dyn_bindings(
    sym: Seq<u8>,
    m: Mode,
    depth: nat,
    bound: nat,
    st: State,
    open: bool,
)
    requires
        within(sym, st),
    ensures
        continues(sym, st, print_dyn_bindings(sym, m, depth, bound, st, open)),
    decreases levels_left(depth), 4nat, st.remaining(sym),
{
    if st.sees(sym, 'p' as u8) {
        let s0 = st.at(st.next() + 1);
        let s = if !open {
            s0.emit(m, "<"@)
        } else {
            s0.emit(m, ", "@)
        };
        lemma_readers_advance(sym, s.next());
        let r = step(s, m, ident(sym, s.next()));
        if let Some(name) = r.0 {
            let from = r.1.emit(m, ident_text(name)).emit(m, " = "@);
            lemma_print_type(sym, m, depth, bound, from);
            let after = print_type(sym, m, depth, bound, from);
            if after.remaining(sym) < st.remaining(sym) {
                lemma_print_dyn_bindings(sym, m, depth, bound, after, true);
            }
        }
    }
}

/// After a type that is read from `from`, a position behind `st`, less of
/// the symbol is left than at `st`: the bindings of a trait, each a `p`, a
/// name and a type, never stop for want of progress.
pub proof fn lemma_type_uses_up(
    sym: Seq<u8>,
    m: Mode,
    depth: nat,
    bound: nat,
    st: State,
    from: State,
)
    requires
        within(sym, st),
        within(sym, from),
        st.pos is Ok,
        from.pos is Ok ==> st.next() < from.next(),
    ensures
        print_type(sym, m, depth, bound, from).remaining(sym) < st.remaining(sym),
{
    lemma_print_type(sym, m, depth, bound, from);
}

/// A constant, where it does not fail, has read at least one byte.
pub proof fn lemma_print_const(sym: Seq<u8>, m: Mode, depth: nat, bound: nat, st: State)
    requires
        within(sym, st),
    ensures
        progresses(sym, st, print_const(sym, m, depth, bound, st)),
{
    let r0 = step(st, m, enter(depth, st.next()));
    if r0.0 is Some {
        let s = r0.1;
        if s.sees(sym, 'B' as u8) {
            lemma_print_backref(sym, m, depth + 1, bound, s.at(s.next() + 1), Backref::Const);
        } else {
            let r1 = step(s, m, next_byte(sym, s.next()));
            if let Some(ty_tag) = r1.0 {
                lemma_print_const_value(sym, m, r1.1, ty_tag);
            }
        }
    }
}

} // verus!
