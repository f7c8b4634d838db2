use rustc_demangle::demangle;
use rustc_demangle::v0;

fn nohash(sym: &str) -> String {
    demangle(sym).to_string_alternate()
}

fn nohash_type(sym: &str) -> String {
    nohash(&format!("_RMC0{}", sym))
}

#[test]
fn demangle_crate_with_leading_digit() {
    assert_eq!(nohash("_RNvC6_123foo3bar"), "123foo::bar");
}

#[test]
fn demangle_utf8_idents() {
    assert_eq!(
        nohash("_RNqCs4fqI2P2rA04_11utf8_identsu30____7hkackfecea1cbdathfdh9hlq6y"),
        "utf8_idents::საჭმელად_გემრიელი_სადილი"
    );
}

#[test]
fn demangle_closure() {
    assert_eq!(
        nohash("_RNCNCNgCs6DXkGYLi8lr_2cc5spawn00B5_"),
        "cc::spawn::{closure#0}::{closure#0}"
    );
    assert_eq!(
        nohash("_RNCINkXs25_NgCsbmNqQUJIY6D_4core5sliceINyB9_4IterhENuNgNoBb_4iter8iterator8Iterator9rpositionNCNgNpB9_6memchr7memrchrs_0E0Bb_"),
        "<core::slice::Iter<u8> as core::iter::iterator::Iterator>::rposition::<core::slice::memchr::memrchr::{closure#1}>::{closure#0}"
    );
}

#[test]
fn demangle_dyn_trait() {
    assert_eq!(
        nohash("_RINbNbCskIICzLVDPPb_5alloc5alloc8box_freeDINbNiB4_5boxed5FnBoxuEp6OutputuEL_ECs1iopQbuBiw2_3std"),
        "alloc::alloc::box_free::<dyn alloc::boxed::FnBox<(), Output = ()>>"
    );
}

#[test]
fn demangle_const_generics() {
    assert_eq!(
        nohash_type("INtC8arrayvec8ArrayVechKj7b_E"),
        format!("<{}>", "arrayvec::ArrayVec<u8, 123>")
    );
    assert_eq!(
        nohash("_RMCs4fqI2P2rA04_13const_genericINtB0_8UnsignedKhb_E"),
        "<const_generic::Unsigned<11>>"
    );
    assert_eq!(
        nohash("_RMCs4fqI2P2rA04_13const_genericINtB0_6SignedKs98_E"),
        "<const_generic::Signed<152>>"
    );
    assert_eq!(
        nohash("_RMCs4fqI2P2rA04_13const_genericINtB0_6SignedKanb_E"),
        "<const_generic::Signed<-11>>"
    );
    assert_eq!(
        nohash("_RMCs4fqI2P2rA04_13const_genericINtB0_4BoolKb0_E"),
        "<const_generic::Bool<false>>"
    );
    assert_eq!(
        nohash("_RMCs4fqI2P2rA04_13const_genericINtB0_4BoolKb1_E"),
        "<const_generic::Bool<true>>"
    );
    assert_eq!(
        nohash("_RMCs4fqI2P2rA04_13const_genericINtB0_4CharKc76_E"),
        "<const_generic::Char<'v'>>"
    );
    assert_eq!(
        nohash("_RMCs4fqI2P2rA04_13const_genericINtB0_4CharKca_E"),
        "<const_generic::Char<'\\n'>>"
    );
    assert_eq!(
        nohash("_RMCs4fqI2P2rA04_13const_genericINtB0_4CharKc2202_E"),
        "<const_generic::Char<'∂'>>"
    );
    assert_eq!(
        nohash("_RNvNvMCs4fqI2P2rA04_13const_genericINtB4_3FooKpE3foo3FOO"),
        "<const_generic::Foo<_>>::foo::FOO"
    );
}

#[test]
fn demangle_exponential_explosion() {
    // Because the prefix is 3 bytes long, `B2_` refers to the start of the
    // type, not `B_`. 6 backrefs (`B8_E` through `B3_E`) result in 2^6 = 64
    // copies of `_`. Also, because the `p` (`_`) type is after all of the
    // starts of the backrefs, it can be replaced with any other type,
    // independently.
    let sym = format!(
        "{}{}{}{}{}{}{}{}",
        "TTTTTT", "p", "B8_E", "B7_E", "B6_E", "B5_E", "B4_E", "B3_E"
    );
    assert_eq!(
        nohash_type(&sym),
        format!(
            "<{}>",
            "((((((_, _), (_, _)), ((_, _), (_, _))), (((_, _), (_, _)), ((_, _), (_, _)))), \
             ((((_, _), (_, _)), ((_, _), (_, _))), (((_, _), (_, _)), ((_, _), (_, _))))), \
             (((((_, _), (_, _)), ((_, _), (_, _))), (((_, _), (_, _)), ((_, _), (_, _)))), \
             ((((_, _), (_, _)), ((_, _), (_, _))), (((_, _), (_, _)), ((_, _), (_, _))))))"
        )
    );
}

#[test]
fn v0_demangle_thinlto() {
    assert_eq!(nohash("_RC3foo.llvm.9D1C9369"), "foo");
    assert_eq!(nohash("_RC3foo.llvm.9D1C9369@@16"), "foo");
    assert_eq!(nohash("_RNvC9backtrace3foo.llvm.A5310EB9"), "backtrace::foo");
}

#[test]
fn demangle_extra_suffix() {
    assert_eq!(
        nohash("_RNvNtNtNtNtCs92dm3009vxr_4rand4rngs7adapter9reseeding4fork23FORK_HANDLER_REGISTERED.0.0"),
        "rand::rngs::adapter::reseeding::fork::FORK_HANDLER_REGISTERED.0.0"
    );
}

#[test]
fn demangling_limits() {
    // Symbols that nest deeper than the limit before any backreference.
    let mut deep_refs = String::from("_RMC0");
    let mut deep_tuples = String::from("_RIC0");
    let mut deep_paths = String::from("_R");
    for _ in 0..600 {
        deep_refs.push('R');
        deep_tuples.push('T');
        deep_paths.push_str("Nv");
    }
    deep_refs.push('p');
    deep_tuples.push('p');
    deep_paths.push_str("C0");
    for sym in [deep_refs, deep_tuples, deep_paths] {
        assert_eq!(
            v0::demangle(&sym).map(|_| ()),
            Err(v0::ParseError::RecursedTooDeep)
        );
    }

    assert!(demangle(
        "RIC20tRYIMYNRYFG05_EB5_B_B6_RRRRRRRRRRRRRRRRRRRRRRRRRRRRRRRRRR\
         RRRRRRRRRRRRRRRRRRRRRRRRRRRRRRRRRRRRRRRRRRRRRRRRRRRRRRRRRRRRRRRRRRRB_E",
    )
    .to_string()
    .contains("{recursion limit reached}"));
}

#[test]
fn recursion_limit_leaks() {
    // Both paths and types must pair entering with leaving, and not leak
    // levels that would trip the limit.
    for &(sym_leaf, expected_leaf) in &[("p", "_"), ("Rp", "&_"), ("C1x", "x")] {
        let mut sym = format!("_RIC0p");
        let mut expected = format!("::<_");
        for _ in 0..(v0::MAX_DEPTH * 2) {
            sym.push_str(sym_leaf);
            expected.push_str(", ");
            expected.push_str(expected_leaf);
        }
        sym.push('E');
        expected.push('>');

        assert_eq!(nohash(&sym), expected);
    }
}

#[test]
fn recursion_limit_backref_free_bypass() {
    // Long symbols cannot get around the limit by not using backrefs.
    let depth = 100_000;

    // In order to hide the long mangling from the initial "shallow" parse,
    // it's nested in an identifier (crate name), preceding its use.
    let mut sym = format!("_RIC{}", depth);
    let backref_start = sym.len() - 2;
    for _ in 0..depth {
        sym.push('R');
    }

    // Write a backref to just after the length of the identifier.
    sym.push('B');
    sym.push(char::from_digit((backref_start - 1) as u32, 36).unwrap());
    sym.push('_');

    // Close the `I` at the start.
    sym.push('E');

    assert!(demangle(&sym).to_string().contains("{recursion limit reached}"));
}
