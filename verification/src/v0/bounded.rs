//! Laws on a sink that is bounded: until it refuses a write, a walk is the
//! walk that writes all of the text. What a bounded sink holds at the end,
//! if it refused nothing, is therefore the whole text.

use crate::v0::grammar::abi_text;
use crate::v0::grammar::basic_type;
use crate::v0::grammar::binder_lifetimes;
use crate::v0::grammar::enter;
use crate::v0::grammar::in_binder;
use crate::v0::grammar::levels_left;
use crate::v0::grammar::list_rank;
use crate::v0::grammar::print_backref;
use crate::v0::grammar::print_binder_body;
use crate::v0::grammar::print_const;
use crate::v0::grammar::print_dyn_bindings;
use crate::v0::grammar::print_dyn_trait;
use crate::v0::grammar::print_fn_sig;
use crate::v0::grammar::print_fn_sig_tail;
use crate::v0::grammar::print_generic_arg;
use crate::v0::grammar::print_lifetime;
use crate::v0::grammar::print_list_item;
use crate::v0::grammar::print_path;
use crate::v0::grammar::print_path_impl;
use crate::v0::grammar::print_path_impl_body;
use crate::v0::grammar::print_path_instance;
use crate::v0::grammar::print_path_maybe_open_generics;
use crate::v0::grammar::print_path_nested;
use crate::v0::grammar::print_sep_list;
use crate::v0::grammar::print_type;
use crate::v0::grammar::print_type_array;
use crate::v0::grammar::print_type_dyn;
use crate::v0::grammar::print_type_ptr;
use crate::v0::grammar::print_type_ref;
use crate::v0::grammar::print_type_ref_target;
use crate::v0::grammar::print_type_tuple;
use crate::v0::grammar::step;
use crate::v0::grammar::symbol_text;
use crate::v0::grammar::symbol_write;
use crate::v0::grammar::Backref;
use crate::v0::grammar::Binder;
use crate::v0::grammar::ListItem;
use crate::v0::grammar::Mode;
use crate::v0::grammar::State;
use crate::v0::parser::backref;
use crate::v0::parser::disambiguator;
use crate::v0::parser::ident;
use crate::v0::parser::integer_62;
use crate::v0::parser::namespace;
use crate::v0::parser::next_byte;
use crate::v0::parser::opt_integer_62;
use crate::v0::punycode::ident_text;
use vstd::prelude::*;

verus! {

/// The walk `s1` has filled its sink, or stands where `s2` stands with the
/// same text written.
pub open spec fn same_or_full(s1: State, s2: State) -> bool {
    s1.full() || s1 == s2
}

/// Two walks that write alike, the second into a sink without bound, of
/// which the first has filled its sink or stands where the second stands.
pub open spec fn until_full(m1: Mode, m2: Mode, s1: State, s2: State) -> bool {
    &&& m1.printing == m2.printing
    &&& m1.alternate == m2.alternate
    &&& m2.limit is None
    &&& same_or_full(s1, s2)
}

pub proof fn lemma_binder_lifetimes_bounded(
    m1: Mode,
    m2: Mode,
    bound: nat,
    s1: State,
    s2: State,
    i: nat,
    n: nat,
)
    requires
        until_full(m1, m2, s1, s2),
    ensures
        same_or_full(binder_lifetimes(m1, bound, s1, i, n), binder_lifetimes(m2, bound, s2, i, n)),
    decreases n - i,
{
    if i < n {
        let a1 = if i > 0 {
            s1.emit(m1, ", "@)
        } else {
            s1
        };
        let a2 = if i > 0 {
            s2.emit(m2, ", "@)
        } else {
            s2
        };
        lemma_binder_lifetimes_bounded(
            m1,
            m2,
            bound,
            print_lifetime(m1, bound + i + 1, a1, 1),
            print_lifetime(m2, bound + i + 1, a2, 1),
            i + 1,
            n,
        );
    }
}

pub proof fn lemma_print_backref_bounded(
    sym: Seq<u8>,
    m1: Mode,
    m2: Mode,
    depth: nat,
    bound: nat,
    s1: State,
    s2: State,
    target: Backref,
)
    requires
        until_full(m1, m2, s1, s2),
    ensures
        same_or_full(print_backref(sym, m1, depth, bound, s1, target).0, print_backref( sym, m2, depth, bound, s2, target, ).0),
        print_backref(sym, m1, depth, bound, s1, target).0.full() || print_backref(sym, m1, depth, bound, s1, target).1 == print_backref( sym, m2, depth, bound, s2, target, ).1,
    decreases levels_left(depth), 1nat, 0nat,
{
    let r1 = step(s1, m1, backref(sym, s1.next(), depth));
    let r2 = step(s2, m2, backref(sym, s2.next(), depth));
    if let Some(t) = r1.0 {
        if m1.printing {
            let f1 = State { pos: Ok(t.next), out: r1.1.out };
            let f2 = State { pos: Ok(t.next), out: r2.1.out };
            match target {
                Backref::Path { in_value } => lemma_print_path_bounded(
                    sym,
                    m1,
                    m2,
                    t.depth,
                    bound,
                    f1,
                    f2,
                    in_value,
                ),
                Backref::Type => lemma_print_type_bounded(sym, m1, m2, t.depth, bound, f1, f2),
                Backref::Const => lemma_print_const_bounded(sym, m1, m2, t.depth, bound, f1, f2),
                Backref::OpenPath => lemma_print_path_maybe_open_generics_bounded(
                    sym,
                    m1,
                    m2,
                    t.depth,
                    bound,
                    f1,
                    f2,
                ),
            }
        }
    }
}

pub proof fn lemma_print_path_bounded(
    sym: Seq<u8>,
    m1: Mode,
    m2: Mode,
    depth: nat,
    bound: nat,
    s1: State,
    s2: State,
    in_value: bool,
)
    requires
        until_full(m1, m2, s1, s2),
    ensures
        same_or_full(print_path(sym, m1, depth, bound, s1, in_value), print_path( sym, m2, depth, bound, s2, in_value, )),
    decreases levels_left(depth), 0nat, 0nat,
{
    let a1 = step(s1, m1, enter(depth, s1.next()));
    let a2 = step(s2, m2, enter(depth, s2.next()));
    if a1.0 is Some {
        let b1 = step(a1.1, m1, next_byte(sym, a1.1.next()));
        let b2 = step(a2.1, m2, next_byte(sym, a2.1.next()));
        if let Some(tag) = b1.0 {
            if tag == 'N' as u8 {
                lemma_print_path_nested_bounded(sym, m1, m2, depth + 1, bound, b1.1, b2.1, in_value);
            } else if tag == 'M' as u8 || tag == 'X' as u8 || tag == 'Y' as u8 {
                lemma_print_path_impl_bounded(sym, m1, m2, depth + 1, bound, b1.1, b2.1, tag);
            } else if tag == 'I' as u8 {
                lemma_print_path_instance_bounded(
                    sym,
                    m1,
                    m2,
                    depth + 1,
                    bound,
                    b1.1,
                    b2.1,
                    in_value,
                );
            } else if tag == 'B' as u8 {
                lemma_print_backref_bounded(
                    sym,
                    m1,
                    m2,
                    depth + 1,
                    bound,
                    b1.1,
                    b2.1,
                    Backref::Path { in_value },
                );
            }
        }
    }
}

pub proof fn lemma_print_path_nested_bounded(
    sym: Seq<u8>,
    m1: Mode,
    m2: Mode,
    depth: nat,
    bound: nat,
    s1: State,
    s2: State,
    in_value: bool,
)
    requires
        until_full(m1, m2, s1, s2),
    ensures
        same_or_full(print_path_nested(sym, m1, depth, bound, s1, in_value), print_path_nested( sym, m2, depth, bound, s2, in_value, )),
    decreases levels_left(depth), 9nat, 0nat,
{
    let a1 = step(s1, m1, namespace(sym, s1.next()));
    let a2 = step(s2, m2, namespace(sym, s2.next()));
    if a1.0 is Some {
        lemma_print_path_bounded(sym, m1, m2, depth, bound, a1.1, a2.1, in_value);
    }
}

pub proof fn lemma_print_path_impl_bounded(
    sym: Seq<u8>,
    m1: Mode,
    m2: Mode,
    depth: nat,
    bound: nat,
    s1: State,
    s2: State,
    tag: u8,
)
    requires
        until_full(m1, m2, s1, s2),
    ensures
        same_or_full(print_path_impl(sym, m1, depth, bound, s1, tag), print_path_impl( sym, m2, depth, bound, s2, tag, )),
    decreases levels_left(depth), 9nat, 0nat,
{
    if tag != 'Y' as u8 {
        let a1 = step(s1, m1, disambiguator(sym, s1.next()));
        let a2 = step(s2, m2, disambiguator(sym, s2.next()));
        if a1.0 is Some {
            let f1 = State { pos: a1.1.pos, out: Seq::empty() };
            let f2 = State { pos: a2.1.pos, out: Seq::empty() };
            lemma_print_path_bounded(sym, m1.skipping(), m2.skipping(), depth, bound, f1, f2, false);
            let k1 = print_path(sym, m1.skipping(), depth, bound, f1, false);
            let k2 = print_path(sym, m2.skipping(), depth, bound, f2, false);
            lemma_print_path_impl_body_bounded(
                sym,
                m1,
                m2,
                depth,
                bound,
                State { pos: k1.pos, out: a1.1.out },
                State { pos: k2.pos, out: a2.1.out },
                tag,
            );
        }
    } else {
        lemma_print_path_impl_body_bounded(sym, m1, m2, depth, bound, s1, s2, tag);
    }
}

pub proof fn lemma_print_path_impl_body_bounded(
    sym: Seq<u8>,
    m1: Mode,
    m2: Mode,
    depth: nat,
    bound: nat,
    s1: State,
    s2: State,
    tag: u8,
)
    requires
        until_full(m1, m2, s1, s2),
    ensures
        same_or_full(print_path_impl_body(sym, m1, depth, bound, s1, tag), print_path_impl_body( sym, m2, depth, bound, s2, tag, )),
    decreases levels_left(depth), 8nat, 0nat,
{
    lemma_print_type_bounded(sym, m1, m2, depth, bound, s1.emit(m1, "<"@), s2.emit(m2, "<"@));
    let a1 = print_type(sym, m1, depth, bound, s1.emit(m1, "<"@));
    let a2 = print_type(sym, m2, depth, bound, s2.emit(m2, "<"@));
    if tag != 'M' as u8 {
        lemma_print_path_bounded(
            sym,
            m1,
            m2,
            depth,
            bound,
            a1.emit(m1, " as "@),
            a2.emit(m2, " as "@),
            false,
        );
    }
}

pub proof fn lemma_print_path_instance_bounded(
    sym: Seq<u8>,
    m1: Mode,
    m2: Mode,
    depth: nat,
    bound: nat,
    s1: State,
    s2: State,
    in_value: bool,
)
    requires
        until_full(m1, m2, s1, s2),
    ensures
        same_or_full(print_path_instance(sym, m1, depth, bound, s1, in_value), print_path_instance( sym, m2, depth, bound, s2, in_value, )),
    decreases levels_left(depth), 9nat, 0nat,
{
    lemma_print_path_bounded(sym, m1, m2, depth, bound, s1, s2, in_value);
    let a1 = print_path(sym, m1, depth, bound, s1, in_value);
    let a2 = print_path(sym, m2, depth, bound, s2, in_value);
    let b1 = if in_value {
        a1.emit(m1, "::"@)
    } else {
        a1
    };
    let b2 = if in_value {
        a2.emit(m2, "::"@)
    } else {
        a2
    };
    lemma_print_sep_list_bounded(
        sym,
        m1,
        m2,
        depth,
        bound,
        b1.emit(m1, "<"@),
        b2.emit(m2, "<"@),
        ListItem::GenericArg,
        ", "@,
        0,
    );
}

pub proof fn lemma_print_generic_arg_bounded(
    sym: Seq<u8>,
    m1: Mode,
    m2: Mode,
    depth: nat,
    bound: nat,
    s1: State,
    s2: State,
)
    requires
        until_full(m1, m2, s1, s2),
    ensures
        same_or_full(print_generic_arg(sym, m1, depth, bound, s1), print_generic_arg( sym, m2, depth, bound, s2, )),
    decreases levels_left(depth), 1nat, 0nat,
{
    if s1.sees(sym, 'L' as u8) {
    } else if s1.sees(sym, 'K' as u8) {
        lemma_print_const_bounded(
            sym,
            m1,
            m2,
            depth,
            bound,
            s1.at(s1.next() + 1),
            s2.at(s2.next() + 1),
        );
    } else {
        lemma_print_type_bounded(sym, m1, m2, depth, bound, s1, s2);
    }
}

pub proof fn lemma_print_list_item_bounded(
    sym: Seq<u8>,
    m1: Mode,
    m2: Mode,
    depth: nat,
    bound: nat,
    s1: State,
    s2: State,
    item: ListItem,
)
    requires
        until_full(m1, m2, s1, s2),
    ensures
        same_or_full(print_list_item(sym, m1, depth, bound, s1, item), print_list_item( sym, m2, depth, bound, s2, item, )),
    decreases levels_left(depth), list_rank(item), 0nat,
{
    match item {
        ListItem::GenericArg => lemma_print_generic_arg_bounded(sym, m1, m2, depth, bound, s1, s2),
        ListItem::Type => lemma_print_type_bounded(sym, m1, m2, depth, bound, s1, s2),
        ListItem::DynTrait => lemma_print_dyn_trait_bounded(sym, m1, m2, depth, bound, s1, s2),
    }
}

pub proof fn lemma_print_sep_list_bounded(
    sym: Seq<u8>,
    m1: Mode,
    m2: Mode,
    depth: nat,
    bound: nat,
    s1: State,
    s2: State,
    item: ListItem,
    sep: Seq<char>,
    i: nat,
)
    requires
        until_full(m1, m2, s1, s2),
    ensures
        same_or_full(print_sep_list(sym, m1, depth, bound, s1, item, sep, i).0, print_sep_list( sym, m2, depth, bound, s2, item, sep, i, ).0),
        print_sep_list(sym, m1, depth, bound, s1, item, sep, i).0.full() || print_sep_list(sym, m1, depth, bound, s1, item, sep, i).1 == print_sep_list( sym, m2, depth, bound, s2, item, sep, i, ).1,
    decreases levels_left(depth), list_rank(item), s1.remaining(sym) + 1,
{
    if s1.pos is Ok && !s1.sees(sym, 'E' as u8) {
        let a1 = if i > 0 {
            s1.emit(m1, sep)
        } else {
            s1
        };
        let a2 = if i > 0 {
            s2.emit(m2, sep)
        } else {
            s2
        };
        lemma_print_list_item_bounded(sym, m1, m2, depth, bound, a1, a2, item);
        let b1 = print_list_item(sym, m1, depth, bound, a1, item);
        let b2 = print_list_item(sym, m2, depth, bound, a2, item);
        if b1.remaining(sym) < s1.remaining(sym) {
            lemma_print_sep_list_bounded(sym, m1, m2, depth, bound, b1, b2, item, sep, i + 1);
        }
    }
}

pub proof fn lemma_print_type_bounded(
    sym: Seq<u8>,
    m1: Mode,
    m2: Mode,
    depth: nat,
    bound: nat,
    s1: State,
    s2: State,
)
    requires
        until_full(m1, m2, s1, s2),
    ensures
        same_or_full(print_type(sym, m1, depth, bound, s1), print_type(sym, m2, depth, bound, s2)),
    decreases levels_left(depth), 0nat, 0nat,
{
    let a1 = step(s1, m1, next_byte(sym, s1.next()));
    let a2 = step(s2, m2, next_byte(sym, s2.next()));
    if let Some(tag) = a1.0 {
        if basic_type(tag) is None {
            let b1 = step(a1.1, m1, enter(depth, a1.1.next()));
            let b2 = step(a2.1, m2, enter(depth, a2.1.next()));
            if b1.0 is Some {
                let t1 = b1.1;
                let t2 = b2.1;
                if tag == 'R' as u8 || tag == 'Q' as u8 {
                    lemma_print_type_ref_bounded(sym, m1, m2, depth + 1, bound, t1, t2, tag);
                } else if tag == 'P' as u8 || tag == 'O' as u8 {
                    lemma_print_type_ptr_bounded(sym, m1, m2, depth + 1, bound, t1, t2, tag);
                } else if tag == 'A' as u8 || tag == 'S' as u8 {
                    lemma_print_type_array_bounded(sym, m1, m2, depth + 1, bound, t1, t2, tag);
                } else if tag == 'T' as u8 {
                    lemma_print_type_tuple_bounded(sym, m1, m2, depth + 1, bound, t1, t2);
                } else if tag == 'F' as u8 {
                    lemma_in_binder_bounded(sym, m1, m2, depth + 1, bound, t1, t2, Binder::FnSig);
                } else if tag == 'D' as u8 {
                    lemma_print_type_dyn_bounded(sym, m1, m2, depth + 1, bound, t1, t2);
                } else if tag == 'B' as u8 {
                    lemma_print_backref_bounded(
                        sym,
                        m1,
                        m2,
                        depth + 1,
                        bound,
                        t1,
                        t2,
                        Backref::Type,
                    );
                } else {
                    lemma_print_path_bounded(
                        sym,
                        m1,
                        m2,
                        depth + 1,
                        bound,
                        t1.at(t1.next() - 1),
                        t2.at(t2.next() - 1),
                        false,
                    );
                }
            }
        }
    }
}

pub proof fn lemma_print_type_ref_bounded(
    sym: Seq<u8>,
    m1: Mode,
    m2: Mode,
    depth: nat,
    bound: nat,
    s1: State,
    s2: State,
    tag: u8,
)
    requires
        until_full(m1, m2, s1, s2),
    ensures
        same_or_full(print_type_ref(sym, m1, depth, bound, s1, tag), print_type_ref( sym, m2, depth, bound, s2, tag, )),
    decreases levels_left(depth), 9nat, 0nat,
{
    let a1 = s1.emit(m1, "&"@);
    let a2 = s2.emit(m2, "&"@);
    if a1.sees(sym, 'L' as u8) {
        let b1 = a1.at(a1.next() + 1);
        let b2 = a2.at(a2.next() + 1);
        let r1 = step(b1, m1, integer_62(sym, b1.next()));
        let r2 = step(b2, m2, integer_62(sym, b2.next()));
        if let Some(lt) = r1.0 {
            let c1 = if lt != 0 {
                print_lifetime(m1, bound, r1.1, lt).emit(m1, " "@)
            } else {
                r1.1
            };
            let c2 = if lt != 0 {
                print_lifetime(m2, bound, r2.1, lt).emit(m2, " "@)
            } else {
                r2.1
            };
            lemma_print_type_ref_target_bounded(sym, m1, m2, depth, bound, c1, c2, tag);
        }
    } else {
        lemma_print_type_ref_target_bounded(sym, m1, m2, depth, bound, a1, a2, tag);
    }
}

pub proof fn lemma_print_type_ref_target_bounded(
    sym: Seq<u8>,
    m1: Mode,
    m2: Mode,
    depth: nat,
    bound: nat,
    s1: State,
    s2: State,
    tag: u8,
)
    requires
        until_full(m1, m2, s1, s2),
    ensures
        same_or_full(print_type_ref_target(sym, m1, depth, bound, s1, tag), print_type_ref_target( sym, m2, depth, bound, s2, tag, )),
    decreases levels_left(depth), 8nat, 0nat,
{
    let a1 = if tag != 'R' as u8 {
        s1.emit(m1, "mut "@)
    } else {
        s1
    };
    let a2 = if tag != 'R' as u8 {
        s2.emit(m2, "mut "@)
    } else {
        s2
    };
    lemma_print_type_bounded(sym, m1, m2, depth, bound, a1, a2);
}

pub proof fn lemma_print_type_ptr_bounded(
    sym: Seq<u8>,
    m1: Mode,
    m2: Mode,
    depth: nat,
    bound: nat,
    s1: State,
    s2: State,
    tag: u8,
)
    requires
        until_full(m1, m2, s1, s2),
    ensures
        same_or_full(print_type_ptr(sym, m1, depth, bound, s1, tag), print_type_ptr( sym, m2, depth, bound, s2, tag, )),
    decreases levels_left(depth), 9nat, 0nat,
{
    let a1 = s1.emit(m1, "*"@);
    let a2 = s2.emit(m2, "*"@);
    let b1 = if tag != 'P' as u8 {
        a1.emit(m1, "mut "@)
    } else {
        a1.emit(m1, "const "@)
    };
    let b2 = if tag != 'P' as u8 {
        a2.emit(m2, "mut "@)
    } else {
        a2.emit(m2, "const "@)
    };
    lemma_print_type_bounded(sym, m1, m2, depth, bound, b1, b2);
}

pub proof fn lemma_print_type_array_bounded(
    sym: Seq<u8>,
    m1: Mode,
    m2: Mode,
    depth: nat,
    bound: nat,
    s1: State,
    s2: State,
    tag: u8,
)
    requires
        until_full(m1, m2, s1, s2),
    ensures
        same_or_full(print_type_array(sym, m1, depth, bound, s1, tag), print_type_array( sym, m2, depth, bound, s2, tag, )),
    decreases levels_left(depth), 9nat, 0nat,
{
    lemma_print_type_bounded(sym, m1, m2, depth, bound, s1.emit(m1, "["@), s2.emit(m2, "["@));
    let a1 = print_type(sym, m1, depth, bound, s1.emit(m1, "["@));
    let a2 = print_type(sym, m2, depth, bound, s2.emit(m2, "["@));
    if tag == 'A' as u8 {
        lemma_print_const_bounded(
            sym,
            m1,
            m2,
            depth,
            bound,
            a1.emit(m1, "; "@),
            a2.emit(m2, "; "@),
        );
    }
}

pub proof fn lemma_print_type_tuple_bounded(
    sym: Seq<u8>,
    m1: Mode,
    m2: Mode,
    depth: nat,
    bound: nat,
    s1: State,
    s2: State,
)
    requires
        until_full(m1, m2, s1, s2),
    ensures
        same_or_full(print_type_tuple(sym, m1, depth, bound, s1), print_type_tuple( sym, m2, depth, bound, s2, )),
    decreases levels_left(depth), 9nat, 0nat,
{
    lemma_print_sep_list_bounded(
        sym,
        m1,
        m2,
        depth,
        bound,
        s1.emit(m1, "("@),
        s2.emit(m2, "("@),
        ListItem::Type,
        ", "@,
        0,
    );
}

pub proof fn lemma_print_type_dyn_bounded(
    sym: Seq<u8>,
    m1: Mode,
    m2: Mode,
    depth: nat,
    bound: nat,
    s1: State,
    s2: State,
)
    requires
        until_full(m1, m2, s1, s2),
    ensures
        same_or_full(print_type_dyn(sym, m1, depth, bound, s1), print_type_dyn( sym, m2, depth, bound, s2, )),
    decreases levels_left(depth), 9nat, 0nat,
{
    lemma_in_binder_bounded(
        sym,
        m1,
        m2,
        depth,
        bound,
        s1.emit(m1, "dyn "@),
        s2.emit(m2, "dyn "@),
        Binder::DynTraits,
    );
}

pub proof fn lemma_in_binder_bounded(
    sym: Seq<u8>,
    m1: Mode,
    m2: Mode,
    depth: nat,
    bound: nat,
    s1: State,
    s2: State,
    inner: Binder,
)
    requires
        until_full(m1, m2, s1, s2),
    ensures
        same_or_full(in_binder(sym, m1, depth, bound, s1, inner), in_binder( sym, m2, depth, bound, s2, inner, )),
    decreases levels_left(depth), 8nat, 0nat,
{
    let r1 = step(s1, m1, opt_integer_62(sym, s1.next(), 'G' as u8));
    let r2 = step(s2, m2, opt_integer_62(sym, s2.next(), 'G' as u8));
    if let Some(n) = r1.0 {
        if !m1.printing {
            lemma_print_binder_body_bounded(sym, m1, m2, depth, bound, r1.1, r2.1, inner);
        } else if bound + n > u32::MAX {
        } else if n > 0 {
            let a1 = r1.1.emit(m1, "for<"@);
            let a2 = r2.1.emit(m2, "for<"@);
            lemma_binder_lifetimes_bounded(m1, m2, bound, a1, a2, 0, n as nat);
            let b1 = binder_lifetimes(m1, bound, a1, 0, n as nat);
            let b2 = binder_lifetimes(m2, bound, a2, 0, n as nat);
            lemma_print_binder_body_bounded(
                sym,
                m1,
                m2,
                depth,
                (bound + n) as nat,
                b1.emit(m1, "> "@),
                b2.emit(m2, "> "@),
                inner,
            );
        } else {
            lemma_print_binder_body_bounded(sym, m1, m2, depth, bound, r1.1, r2.1, inner);
        }
    }
}

pub proof fn lemma_print_binder_body_bounded(
    sym: Seq<u8>,
    m1: Mode,
    m2: Mode,
    depth: nat,
    bound: nat,
    s1: State,
    s2: State,
    inner: Binder,
)
    requires
        until_full(m1, m2, s1, s2),
    ensures
        same_or_full(print_binder_body(sym, m1, depth, bound, s1, inner), print_binder_body( sym, m2, depth, bound, s2, inner, )),
    decreases levels_left(depth), 7nat, 1nat,
{
    match inner {
        Binder::FnSig => lemma_print_fn_sig_bounded(sym, m1, m2, depth, bound, s1, s2),
        Binder::DynTraits => lemma_print_sep_list_bounded(
            sym,
            m1,
            m2,
            depth,
            bound,
            s1,
            s2,
            ListItem::DynTrait,
            " + "@,
            0,
        ),
    }
}

pub proof fn lemma_print_fn_sig_bounded(
    sym: Seq<u8>,
    m1: Mode,
    m2: Mode,
    depth: nat,
    bound: nat,
    s1: State,
    s2: State,
)
    requires
        until_full(m1, m2, s1, s2),
    ensures
        same_or_full(print_fn_sig(sym, m1, depth, bound, s1), print_fn_sig(sym, m2, depth, bound, s2)),
    decreases levels_left(depth), 4nat, 0nat,
{
    let is_unsafe = s1.sees(sym, 'U' as u8);
    let a1 = if is_unsafe {
        s1.at(s1.next() + 1)
    } else {
        s1
    };
    let a2 = if is_unsafe {
        s2.at(s2.next() + 1)
    } else {
        s2
    };
    if a1.sees(sym, 'K' as u8) {
        let b1 = a1.at(a1.next() + 1);
        let b2 = a2.at(a2.next() + 1);
        if b1.sees(sym, 'C' as u8) {
            lemma_print_fn_sig_tail_bounded(
                sym,
                m1,
                m2,
                depth,
                bound,
                b1.at(b1.next() + 1),
                b2.at(b2.next() + 1),
                is_unsafe,
                Some("C"@),
            );
        } else {
            let r1 = step(b1, m1, ident(sym, b1.next()));
            let r2 = step(b2, m2, ident(sym, b2.next()));
            if let Some(abi) = r1.0 {
                if !(abi.ascii.len() == 0 || abi.punycode.len() != 0) {
                    lemma_print_fn_sig_tail_bounded(
                        sym,
                        m1,
                        m2,
                        depth,
                        bound,
                        r1.1,
                        r2.1,
                        is_unsafe,
                        Some(abi_text(abi.ascii)),
                    );
                }
            }
        }
    } else {
        lemma_print_fn_sig_tail_bounded(sym, m1, m2, depth, bound, a1, a2, is_unsafe, None);
    }
}

pub proof fn lemma_print_fn_sig_tail_bounded(
    sym: Seq<u8>,
    m1: Mode,
    m2: Mode,
    depth: nat,
    bound: nat,
    s1: State,
    s2: State,
    is_unsafe: bool,
    abi: Option<Seq<char>>,
)
    requires
        until_full(m1, m2, s1, s2),
    ensures
        same_or_full(print_fn_sig_tail(sym, m1, depth, bound, s1, is_unsafe, abi), print_fn_sig_tail( sym, m2, depth, bound, s2, is_unsafe, abi, )),
    decreases levels_left(depth), 3nat, 1nat,
{
    let a1 = if is_unsafe {
        s1.emit(m1, "unsafe "@)
    } else {
        s1
    };
    let a2 = if is_unsafe {
        s2.emit(m2, "unsafe "@)
    } else {
        s2
    };
    let b1 = match abi {
        Some(name) => a1.emit(m1, "extern \""@).emit(m1, name).emit(m1, "\" "@),
        None => a1,
    };
    let b2 = match abi {
        Some(name) => a2.emit(m2, "extern \""@).emit(m2, name).emit(m2, "\" "@),
        None => a2,
    };
    lemma_print_sep_list_bounded(
        sym,
        m1,
        m2,
        depth,
        bound,
        b1.emit(m1, "fn("@),
        b2.emit(m2, "fn("@),
        ListItem::Type,
        ", "@,
        0,
    );
    let c1 = print_sep_list(sym, m1, depth, bound, b1.emit(m1, "fn("@), ListItem::Type, ", "@, 0).0;
    let c2 = print_sep_list(sym, m2, depth, bound, b2.emit(m2, "fn("@), ListItem::Type, ", "@, 0).0;
    let d1 = c1.emit(m1, ")"@);
    let d2 = c2.emit(m2, ")"@);
    if !d1.sees(sym, 'u' as u8) {
        lemma_print_type_bounded(
            sym,
            m1,
            m2,
            depth,
            bound,
            d1.emit(m1, " -> "@),
            d2.emit(m2, " -> "@),
        );
    }
}

pub proof fn lemma_print_path_maybe_open_generics_bounded(
    sym: Seq<u8>,
    m1: Mode,
    m2: Mode,
    depth: nat,
    bound: nat,
    s1: State,
    s2: State,
)
    requires
        until_full(m1, m2, s1, s2),
    ensures
        same_or_full(print_path_maybe_open_generics(sym, m1, depth, bound, s1).0, print_path_maybe_open_generics(sym, m2, depth, bound, s2).0),
        print_path_maybe_open_generics(sym, m1, depth, bound, s1).0.full() || print_path_maybe_open_generics(sym, m1, depth, bound, s1).1 == print_path_maybe_open_generics(sym, m2, depth, bound, s2).1,
    decreases levels_left(depth), 3nat, 1nat,
{
    if s1.sees(sym, 'B' as u8) {
        lemma_print_backref_bounded(
            sym,
            m1,
            m2,
            depth,
            bound,
            s1.at(s1.next() + 1),
            s2.at(s2.next() + 1),
            Backref::OpenPath,
        );
    } else if s1.sees(sym, 'I' as u8) {
        lemma_print_path_bounded(
            sym,
            m1,
            m2,
            depth,
            bound,
            s1.at(s1.next() + 1),
            s2.at(s2.next() + 1),
            false,
        );
        let a1 = print_path(sym, m1, depth, bound, s1.at(s1.next() + 1), false);
        let a2 = print_path(sym, m2, depth, bound, s2.at(s2.next() + 1), false);
        lemma_print_sep_list_bounded(
            sym,
            m1,
            m2,
            depth,
            bound,
            a1.emit(m1, "<"@),
            a2.emit(m2, "<"@),
            ListItem::GenericArg,
            ", "@,
            0,
        );
    } else {
        lemma_print_path_bounded(sym, m1, m2, depth, bound, s1, s2, false);
    }
}

pub proof fn lemma_print_dyn_trait_bounded(
    sym: Seq<u8>,
    m1: Mode,
    m2: Mode,
    depth: nat,
    bound: nat,
    s1: State,
    s2: State,
)
    requires
        until_full(m1, m2, s1, s2),
    ensures
        same_or_full(print_dyn_trait(sym, m1, depth, bound, s1), print_dyn_trait( sym, m2, depth, bound, s2, )),
    decreases levels_left(depth), 5nat, 0nat,
{
    lemma_print_path_maybe_open_generics_bounded(sym, m1, m2, depth, bound, s1, s2);
    let r1 = print_path_maybe_open_generics(sym, m1, depth, bound, s1);
    let r2 = print_path_maybe_open_generics(sym, m2, depth, bound, s2);
    lemma_print_dyn_bindings_bounded(sym, m1, m2, depth, bound, r1.0, r2.0, r1.1);
}

pub proof fn lemma_print_dyn_bindings_bounded(
    sym: Seq<u8>,
    m1: Mode,
    m2: Mode,
    depth: nat,
    bound: nat,
    s1: State,
    s2: State,
    open: bool,
)
    requires
        until_full(m1, m2, s1, s2),
    ensures
        same_or_full(print_dyn_bindings(sym, m1, depth, bound, s1, open), print_dyn_bindings( sym, m2, depth, bound, s2, open, )),
    decreases levels_left(depth), 4nat, s1.remaining(sym),
{
    if s1.sees(sym, 'p' as u8) {
        let a1 = s1.at(s1.next() + 1);
        let a2 = s2.at(s2.next() + 1);
        let b1 = if !open {
            a1.emit(m1, "<"@)
        } else {
            a1.emit(m1, ", "@)
        };
        let b2 = if !open {
            a2.emit(m2, "<"@)
        } else {
            a2.emit(m2, ", "@)
        };
        let r1 = step(b1, m1, ident(sym, b1.next()));
        let r2 = step(b2, m2, ident(sym, b2.next()));
        if let Some(name) = r1.0 {
            let f1 = r1.1.emit(m1, ident_text(name)).emit(m1, " = "@);
            let f2 = r2.1.emit(m2, ident_text(name)).emit(m2, " = "@);
            lemma_print_type_bounded(sym, m1, m2, depth, bound, f1, f2);
            let c1 = print_type(sym, m1, depth, bound, f1);
            let c2 = print_type(sym, m2, depth, bound, f2);
            if c1.remaining(sym) < s1.remaining(sym) {
                lemma_print_dyn_bindings_bounded(sym, m1, m2, depth, bound, c1, c2, true);
            }
        }
    }
}

pub proof fn lemma_print_const_bounded(
    sym: Seq<u8>,
    m1: Mode,
    m2: Mode,
    depth: nat,
    bound: nat,
    s1: State,
    s2: State,
)
    requires
        until_full(m1, m2, s1, s2),
    ensures
        same_or_full(print_const(sym, m1, depth, bound, s1), print_const(sym, m2, depth, bound, s2)),
    decreases levels_left(depth), 0nat, 0nat,
{
    let a1 = step(s1, m1, enter(depth, s1.next()));
    let a2 = step(s2, m2, enter(depth, s2.next()));
    if a1.0 is Some {
        if a1.1.sees(sym, 'B' as u8) {
            lemma_print_backref_bounded(
                sym,
                m1,
                m2,
                depth + 1,
                bound,
                a1.1.at(a1.1.next() + 1),
                a2.1.at(a2.1.next() + 1),
                Backref::Const,
            );
        }
    }
}

/// The text in a bounded sink is the whole text of the symbol, unless the
/// sink refused a write.
pub proof fn lemma_bounded_is_text(sym: Seq<u8>, alternate: bool, limit: nat)
    ensures
        !symbol_write(sym, alternate, Some(limit)).full() ==> symbol_write(
            sym,
            alternate,
            Some(limit),
        ).out == symbol_text(sym, alternate),
{
    lemma_print_path_bounded(
        sym,
        Mode { printing: true, alternate, limit: Some(limit) },
        Mode::writing(alternate),
        0,
        0,
        State::start(),
        State::start(),
        true,
    );
}

} // verus!
