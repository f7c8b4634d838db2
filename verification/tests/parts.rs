use rustc_demangle::legacy;
use rustc_demangle::sink::FormatBuf;
use rustc_demangle::v0;
use rustc_demangle::v0::grammar::Backref;
use rustc_demangle::v0::grammar::Binder;
use rustc_demangle::v0::grammar::ListItem;
use rustc_demangle::v0::grammar::Stop;
use rustc_demangle::v0::parser::Ident;
use rustc_demangle::v0::parser::Parser;
use rustc_demangle::v0::printer::basic_type;
use rustc_demangle::v0::printer::Printer;
use rustc_demangle::v0::ParseError;

fn ident_text(ascii: &str, punycode: &str) -> String {
    let id = Ident { ascii: ascii.as_bytes(), punycode: punycode.as_bytes() };
    let mut out = String::from(">");
    id.print(&mut out);
    out
}

fn printed(sym: &str, alternate: bool, run: fn(&mut Printer)) -> (String, Result<usize, Stop>) {
    let mut p = Printer::new(sym.as_bytes(), alternate);
    run(&mut p);
    (p.out.unwrap().into_string(), p.parser.map(|q| q.next))
}

#[test]
fn error_messages() {
    assert_eq!(ParseError::Invalid.message(), "{invalid syntax}");
    assert_eq!(ParseError::RecursedTooDeep.message(), "{recursion limit reached}");
}

#[test]
fn parser_bytes() {
    let mut p = Parser::new(b"ab");
    assert_eq!(p.peek(), Some(b'a'));
    assert!(!p.eat(b'b'));
    assert!(p.eat(b'a'));
    assert_eq!(p.next(), Ok(b'b'));
    assert_eq!(p.peek(), None);
    assert_eq!(p.next(), Err(ParseError::Invalid));
    assert_eq!(p.next, 2);
}

#[test]
fn parser_digits() {
    let mut p = Parser::new(b"7zZ!");
    assert_eq!(p.digit_10(), Ok(7));
    assert_eq!(p.digit_10(), Err(ParseError::Invalid));
    assert_eq!(p.digit_62(), Ok(35));
    assert_eq!(p.digit_62(), Ok(61));
    assert_eq!(p.digit_62(), Err(ParseError::Invalid));
    assert_eq!(p.next, 3);
    let mut q = Parser::new(b"0a9A");
    assert_eq!(q.digit_62(), Ok(0));
    assert_eq!(q.digit_62(), Ok(10));
    assert_eq!(q.digit_62(), Ok(9));
    assert_eq!(q.digit_62(), Ok(36));
}

#[test]
fn parser_integer_62() {
    assert_eq!(Parser::new(b"_").integer_62(), Ok(0));
    assert_eq!(Parser::new(b"0_").integer_62(), Ok(1));
    assert_eq!(Parser::new(b"1_").integer_62(), Ok(2));
    assert_eq!(Parser::new(b"Z_").integer_62(), Ok(62));
    assert_eq!(Parser::new(b"10_").integer_62(), Ok(63));
    assert_eq!(Parser::new(b"6DXkGYLi8lr_").integer_62(), Ok(0x4d6468d6c9fd4bb3 - 1));
    assert_eq!(Parser::new(b"10").integer_62(), Err(ParseError::Invalid));
    assert_eq!(Parser::new(b"1-_").integer_62(), Err(ParseError::Invalid));
    assert_eq!(Parser::new(b"").integer_62(), Err(ParseError::Invalid));
    // 62^11 is beyond 64 bits.
    assert_eq!(Parser::new(b"ZZZZZZZZZZZ_").integer_62(), Err(ParseError::Invalid));
    // The largest value: u64::MAX - 1 in digits gives u64::MAX.
    assert_eq!(Parser::new(b"lYGhA16ahyd_").integer_62(), Ok(u64::MAX - 1));
    assert_eq!(Parser::new(b"lYGhA16ahye_").integer_62(), Ok(u64::MAX));
    assert_eq!(Parser::new(b"lYGhA16ahyf_").integer_62(), Err(ParseError::Invalid));
}

#[test]
fn parser_opt_integer_62() {
    let mut p = Parser::new(b"s_x");
    assert_eq!(p.disambiguator(), Ok(1));
    assert_eq!(p.next, 2);
    assert_eq!(p.disambiguator(), Ok(0));
    assert_eq!(p.next, 2);
    assert_eq!(Parser::new(b"G1_").opt_integer_62(b'G'), Ok(3));
    assert_eq!(Parser::new(b"G1").opt_integer_62(b'G'), Err(ParseError::Invalid));
    assert_eq!(Parser::new(b"slYGhA16ahye_").disambiguator(), Err(ParseError::Invalid));
}

#[test]
fn parser_hex_nibbles() {
    let mut p = Parser::new(b"7b_rest");
    assert_eq!(p.hex_nibbles(), Ok(&b"7b"[..]));
    assert_eq!(p.next, 3);
    assert_eq!(Parser::new(b"_").hex_nibbles(), Ok(&b""[..]));
    assert_eq!(Parser::new(b"7B_").hex_nibbles(), Err(ParseError::Invalid));
    assert_eq!(Parser::new(b"7b").hex_nibbles(), Err(ParseError::Invalid));
}

#[test]
fn parser_namespace() {
    assert_eq!(Parser::new(b"C").namespace(), Ok(Some('C')));
    assert_eq!(Parser::new(b"v").namespace(), Ok(None));
    assert_eq!(Parser::new(b"1").namespace(), Err(ParseError::Invalid));
    assert_eq!(Parser::new(b"").namespace(), Err(ParseError::Invalid));
}

#[test]
fn parser_depth() {
    let mut p = Parser::new(b"");
    for _ in 0..v0::MAX_DEPTH {
        assert_eq!(p.push_depth(), Ok(()));
    }
    assert_eq!(p.depth, v0::MAX_DEPTH);
    assert_eq!(p.push_depth(), Err(ParseError::RecursedTooDeep));
    assert_eq!(p.depth, v0::MAX_DEPTH);
    p.pop_depth();
    assert_eq!(p.depth, v0::MAX_DEPTH - 1);
    assert_eq!(p.push_depth(), Ok(()));
}

#[test]
fn parser_ident() {
    let mut p = Parser::new(b"3fooX");
    let id = p.ident().ok().unwrap();
    assert_eq!((id.ascii, id.punycode, p.next), (&b"foo"[..], &b""[..], 4));
    let mut p = Parser::new(b"6_123foo");
    let id = p.ident().ok().unwrap();
    assert_eq!((id.ascii, id.punycode, p.next), (&b"123foo"[..], &b""[..], 8));
    let mut p = Parser::new(b"0x");
    let id = p.ident().ok().unwrap();
    assert_eq!((id.ascii, id.punycode, p.next), (&b""[..], &b""[..], 1));
    let mut p = Parser::new(b"u9ab_cd_efg");
    let id = p.ident().ok().unwrap();
    assert_eq!((id.ascii, id.punycode, p.next), (&b"ab_cd"[..], &b"efg"[..], 11));
    let mut p = Parser::new(b"u3efg");
    let id = p.ident().ok().unwrap();
    assert_eq!((id.ascii, id.punycode), (&b""[..], &b"efg"[..]));
    assert!(Parser::new(b"u3ab_").ident().is_err());
    assert!(Parser::new(b"4foo").ident().is_err());
    assert!(Parser::new(b"foo").ident().is_err());
    assert!(Parser::new(b"99999999999999999999999999999foo").ident().is_err());
    assert!(Parser::new(b"18446744073709551615x").ident().is_err());
}

#[test]
fn backref_must_point_before_its_tag() {
    // `B` at 2, target 0 and 1 are before it, 2 and up are not.
    for (digits, target) in [("_", Some(0)), ("0_", Some(1)), ("1_", None), ("2_", None), ("Z_", None)] {
        let sym = format!("xxB{}", digits);
        let mut p = Parser::new(sym.as_bytes());
        p.next = 3;
        match (p.backref(), target) {
            (Ok(q), Some(t)) => assert_eq!((q.next, q.depth, p.next), (t, 1, sym.len())),
            (Err(e), None) => assert_eq!(e, ParseError::Invalid),
            _ => panic!("{}", sym),
        }
    }
    let mut p = Parser::new(b"xB_");
    p.next = 2;
    p.depth = v0::MAX_DEPTH;
    assert_eq!(p.backref().err(), Some(ParseError::RecursedTooDeep));
}

#[test]
fn punycode_idents() {
    assert_eq!(ident_text("foo", ""), ">foo");
    assert_eq!(ident_text("", ""), ">");
    assert_eq!(ident_text("__", "7hkackfecea1cbdathfdh9hlq6y"), ">საჭმელად_გემრიელი_სადილი");
    assert_eq!(ident_text("", "sbaaa"), ">µµµ");
    assert_eq!(ident_text("", "tda"), ">ü");
    assert_eq!(ident_text("bcher", "kva"), ">bücher");
    // An upper-case digit, a missing end and a code point beyond Unicode.
    assert_eq!(ident_text("ab", "kvA"), ">punycode{ab-kvA}");
    assert_eq!(ident_text("", "99"), ">punycode{99}");
    assert_eq!(ident_text("a", "999999999999999999999999"), ">punycode{a-999999999999999999999999}");
}

#[test]
fn punycode_length_limit() {
    let fits = "a".repeat(127);
    let full = "a".repeat(128);
    assert_eq!(
        Ident { ascii: fits.as_bytes(), punycode: b"ecn" }.try_small_punycode_decode().map(|v| v.len()),
        Some(128)
    );
    assert_eq!(ident_text(&fits, "ecn"), format!(">{}ü", fits));
    assert_eq!(
        Ident { ascii: full.as_bytes(), punycode: b"yfn" }.try_small_punycode_decode(),
        None
    );
    assert_eq!(ident_text(&full, "yfn"), format!(">punycode{{{}-yfn}}", full));
    assert_eq!(
        Ident { ascii: b"plain", punycode: b"" }.try_small_punycode_decode(),
        None
    );
    let mut out = vec![];
    assert_eq!(Ident { ascii: b"bcher", punycode: b"kva" }.punycode_decode(&mut out), Ok(()));
    assert_eq!(out, vec!['b', 'ü', 'c', 'h', 'e', 'r']);
}

#[test]
fn basic_types() {
    assert_eq!(basic_type(b'b'), Some("bool"));
    assert_eq!(basic_type(b'u'), Some("()"));
    assert_eq!(basic_type(b'z'), Some("!"));
    assert_eq!(basic_type(b'v'), Some("..."));
    assert_eq!(basic_type(b'o'), Some("u128"));
    assert_eq!(basic_type(b'R'), None);
    assert_eq!(basic_type(b'k'), None);
}

#[test]
fn printer_types() {
    assert_eq!(printed("Rm", false, |p| p.print_type()).0, "&u32");
    assert_eq!(printed("Qe", false, |p| p.print_type()).0, "&mut str");
    assert_eq!(printed("RL_m", false, |p| p.print_type()).0, "&u32");
    assert_eq!(printed("Pa", false, |p| p.print_type()).0, "*const i8");
    assert_eq!(printed("Oa", false, |p| p.print_type()).0, "*mut i8");
    assert_eq!(printed("Sh", false, |p| p.print_type()).0, "[u8]");
    assert_eq!(printed("Ahj3_", false, |p| p.print_type()).0, "[u8; 3usize]");
    assert_eq!(printed("Ahj3_", true, |p| p.print_type()).0, "[u8; 3]");
    assert_eq!(printed("TE", false, |p| p.print_type()).0, "()");
    assert_eq!(printed("TbE", false, |p| p.print_type()).0, "(bool,)");
    assert_eq!(printed("TbcE", false, |p| p.print_type()), ("(bool, char)".to_string(), Ok(4)));
    assert_eq!(printed("C3foo", false, |p| p.print_type()).0, "foo");
}

#[test]
fn printer_function_pointers() {
    assert_eq!(printed("FEu", false, |p| p.print_type()).0, "fn()");
    assert_eq!(printed("FbcEd", false, |p| p.print_type()).0, "fn(bool, char) -> f64");
    assert_eq!(printed("FUEu", false, |p| p.print_type()).0, "unsafe fn()");
    assert_eq!(printed("FKCEu", false, |p| p.print_type()).0, "extern \"C\" fn()");
    assert_eq!(
        printed("FUK8C_unwindEu", false, |p| p.print_type()).0,
        "unsafe extern \"C-unwind\" fn()"
    );
    assert_eq!(
        printed("FG_RL0_hEu", false, |p| p.print_type()).0,
        "for<'a> fn(&'a u8)"
    );
    assert_eq!(
        printed("FG0_RL0_hRL1_hEu", false, |p| p.print_type()).0,
        "for<'a, 'b> fn(&'b u8, &'a u8)"
    );
    assert_eq!(
        printed("FK0Eu", false, |p| p.print_type()),
        ("{invalid syntax}".to_string(), Err(Stop::Parse(ParseError::Invalid)))
    );
}

#[test]
fn printer_lifetimes() {
    let mut p = Printer::new(b"", false);
    p.print_lifetime_from_index(0);
    assert_eq!(p.out.as_ref().map(|b| b.as_str()), Some("'_"));
    p.bound_lifetime_depth = 30;
    p.print_lifetime_from_index(30);
    p.print_lifetime_from_index(5);
    p.print_lifetime_from_index(4);
    p.print_lifetime_from_index(1);
    assert_eq!(p.out.as_ref().map(|b| b.as_str()), Some("'_'a'z'_26'_29"));
    assert!(p.parser.is_ok());
    p.print_lifetime_from_index(31);
    assert_eq!(p.out.as_ref().map(|b| b.as_str()), Some("'_'a'z'_26'_29'{invalid syntax}"));
    assert_eq!(p.parser.err(), Some(Stop::Parse(ParseError::Invalid)));
    assert_eq!(
        printed("RL0_h", false, |p| p.print_type()),
        ("&'{invalid syntax} ?".to_string(), Err(Stop::Parse(ParseError::Invalid)))
    );
}

#[test]
fn printer_binder_counts_are_bounded() {
    // 2^32 lifetimes are more than the counter holds.
    assert_eq!(
        printed("FG4GSiF3_Eu", false, |p| p.print_type()),
        ("{invalid syntax}".to_string(), Err(Stop::Parse(ParseError::Invalid)))
    );
    let mut p = Printer::new(b"xG1_E", false);
    p.parser.as_mut().unwrap().next = 1;
    p.in_binder(Binder::DynTraits);
    assert_eq!(p.out.as_ref().map(|b| b.as_str()), Some("for<'a, 'b, 'c> "));
    assert_eq!(p.bound_lifetime_depth, 0);
}

#[test]
fn printer_trait_objects() {
    assert_eq!(
        printed("DNtC3foo3BarEL_", false, |p| p.print_type()).0,
        "dyn foo::Bar"
    );
    assert_eq!(
        printed("DNtC3foo3BarNtC3foo3BazEL_", false, |p| p.print_type()).0,
        "dyn foo::Bar + foo::Baz"
    );
    assert_eq!(
        printed("DG_INtC3foo3BarhEp1ARL0_mp1BbEL_", false, |p| p.print_type()).0,
        "dyn for<'a> foo::Bar<u8, A = &'a u32, B = bool>"
    );
    assert_eq!(
        printed("FG_DNtC3foo3BarEL0_Eu", false, |p| p.print_type()).0,
        "for<'a> fn(dyn foo::Bar + 'a)"
    );
    assert_eq!(
        printed("DG_NtC3foo3BarEL0_", false, |p| p.print_type()),
        ("dyn for<'a> foo::Bar + '{invalid syntax}".to_string(), Err(Stop::Parse(ParseError::Invalid)))
    );
    assert_eq!(
        printed("DNtC3foo3Barp1AbEL_", false, |p| p.print_type()).0,
        "dyn foo::Bar<A = bool>"
    );
    assert_eq!(
        printed("DNtC3foo3BarE", false, |p| p.print_type()),
        ("dyn foo::Bar{invalid syntax}".to_string(), Err(Stop::Parse(ParseError::Invalid)))
    );
}

#[test]
fn printer_paths() {
    assert_eq!(printed("C3foo", false, |p| p.print_path(true)).0, "foo");
    assert_eq!(printed("Cs_3foo", false, |p| p.print_path(true)).0, "foo[1]");
    assert_eq!(printed("CsZ_3foo", false, |p| p.print_path(true)).0, "foo[3f]");
    assert_eq!(printed("CsZ_3foo", true, |p| p.print_path(true)).0, "foo");
    assert_eq!(printed("NvC3foo3bar", false, |p| p.print_path(true)).0, "foo::bar");
    assert_eq!(printed("NvC3foo0", false, |p| p.print_path(true)).0, "foo");
    assert_eq!(printed("NCC3foos_0", false, |p| p.print_path(true)).0, "foo::{closure#1}");
    assert_eq!(printed("NSC3foo4drop", false, |p| p.print_path(true)).0, "foo::{shim:drop#0}");
    assert_eq!(printed("NZC3foo1x", false, |p| p.print_path(true)).0, "foo::{Z:x#0}");
    assert_eq!(printed("MC3foom", false, |p| p.print_path(true)).0, "<u32>");
    assert_eq!(printed("XC3foomNtC3foo3Bar", false, |p| p.print_path(true)).0, "<u32 as foo::Bar>");
    assert_eq!(printed("YmNtC3foo3Bar", false, |p| p.print_path(true)).0, "<u32 as foo::Bar>");
    assert_eq!(printed("INvC3foo3barmE", false, |p| p.print_path(true)).0, "foo::bar::<u32>");
    assert_eq!(printed("INvC3foo3barmL_Kb1_E", false, |p| p.print_path(false)).0, "foo::bar<u32, '_, truebool>");
    assert_eq!(printed("INvC3foo3barmL_Kb1_E", true, |p| p.print_path(false)).0, "foo::bar<u32, '_, true>");
}

#[test]
fn printer_errors_are_sticky() {
    assert_eq!(
        printed("INvC3foo3barARmK!E", false, |p| p.print_path(true)),
        ("foo::bar::<[&u32; {invalid syntax}]>".to_string(), Err(Stop::Parse(ParseError::Invalid)))
    );
    assert_eq!(
        printed("INtC3Vec3VecATm!bKj1_EE", false, |p| p.print_path(false)),
        ("Vec::Vec<[(u32, {invalid syntax}); ?]>".to_string(), Err(Stop::Parse(ParseError::Invalid)))
    );
    assert_eq!(
        printed("Nv!3bar", false, |p| p.print_path(true)),
        ("{invalid syntax}::?".to_string(), Err(Stop::Parse(ParseError::Invalid)))
    );
    assert_eq!(printed("", false, |p| p.print_path(true)).0, "{invalid syntax}");
    assert_eq!(printed("", false, |p| p.print_type()).0, "{invalid syntax}");
    assert_eq!(printed("", false, |p| p.print_const()).0, "{invalid syntax}");
}

#[test]
fn printer_constants() {
    assert_eq!(printed("h7b_", false, |p| p.print_const()).0, "123u8");
    assert_eq!(printed("h7b_", true, |p| p.print_const()).0, "123");
    assert_eq!(printed("j_", true, |p| p.print_const()).0, "0");
    assert_eq!(printed("yffffffffffffffff_", true, |p| p.print_const()).0, "18446744073709551615");
    assert_eq!(printed("o10000000000000000_", true, |p| p.print_const()).0, "0x10000000000000000");
    assert_eq!(printed("o10000000000000000_", false, |p| p.print_const()).0, "0x10000000000000000u128");
    assert_eq!(printed("in7b_", true, |p| p.print_const()).0, "-123");
    assert_eq!(printed("b0_", false, |p| p.print_const()).0, "falsebool");
    assert_eq!(printed("b2_", true, |p| p.print_const()).0, "{invalid syntax}");
    assert_eq!(printed("b_", true, |p| p.print_const()).0, "{invalid syntax}");
    assert_eq!(printed("c76_", true, |p| p.print_const()).0, "'v'");
    assert_eq!(printed("c27_", true, |p| p.print_const()).0, "'\\''");
    assert_eq!(printed("c9_", true, |p| p.print_const()).0, "'\\t'");
    assert_eq!(printed("c1f_", false, |p| p.print_const()).0, "'\\u{1f}'char");
    assert_eq!(printed("cd800_", true, |p| p.print_const()).0, "{invalid syntax}");
    assert_eq!(printed("c110000_", true, |p| p.print_const()).0, "{invalid syntax}");
    assert_eq!(printed("c100000000_", true, |p| p.print_const()).0, "{invalid syntax}");
    assert_eq!(printed("p", false, |p| p.print_const()).0, "_");
    assert_eq!(printed("e_", false, |p| p.print_const()).0, "{invalid syntax}");
    let failed = ("{invalid syntax}".to_string(), Err(Stop::Parse(ParseError::Invalid)));
    assert_eq!(printed("x", true, |p| p.print_const_uint()), failed);
    assert_eq!(printed("x", true, |p| p.print_const_int()), failed);
    assert_eq!(printed("x", true, |p| p.print_const_bool()), failed);
    assert_eq!(printed("x", true, |p| p.print_const_char()), failed);
    assert_eq!(printed("n1f_", true, |p| p.print_const_int()).0, "-31");
    assert_eq!(printed("1_", true, |p| p.print_const_bool()).0, "true");
    assert_eq!(printed("2202_", true, |p| p.print_const_char()).0, "'∂'");
}

#[test]
fn printer_lists_and_arguments() {
    let mut p = Printer::new(b"TbmeE!", false);
    p.parser.as_mut().unwrap().next = 1;
    assert_eq!(p.print_sep_list(ListItem::Type, "; "), 3);
    assert_eq!(p.out.as_ref().map(|b| b.as_str()), Some("bool; u32; str"));
    assert_eq!(p.parser.as_ref().map(|q| q.next), Ok(5));
    assert_eq!(printed("L_", false, |p| p.print_generic_arg()).0, "'_");
    assert_eq!(printed("Kb1_", true, |p| p.print_generic_arg()).0, "true");
    assert_eq!(printed("m", true, |p| p.print_generic_arg()).0, "u32");
    assert_eq!(printed("NtC3foo3Barp1Ab", false, |p| p.print_dyn_trait()).0, "foo::Bar<A = bool>");
    let mut p = Printer::new(b"INtC3foo3BarmE", false);
    assert!(p.print_path_maybe_open_generics());
    assert_eq!(p.out.as_ref().map(|b| b.as_str()), Some("foo::Bar<u32"));
    let mut p = Printer::new(b"NtC3foo3Bar", false);
    assert!(!p.print_path_maybe_open_generics());
}

#[test]
fn printer_backrefs() {
    let mut p = Printer::new(b"mB_", false);
    p.parser.as_mut().unwrap().next = 2;
    assert!(!p.print_backref(Backref::Type));
    assert_eq!(p.out.as_ref().map(|b| b.as_str()), Some("u32"));
    assert_eq!(p.parser.as_ref().map(|q| (q.next, q.depth)), Ok((3, 0)));
    let mut p = Printer::new(b"INtC3foo3BarmEB_", false);
    p.parser.as_mut().unwrap().next = 15;
    assert!(p.print_backref(Backref::OpenPath));
    assert_eq!(p.out.as_ref().map(|b| b.as_str()), Some("foo::Bar<u32"));
    let mut p = Printer::new(b"mB0_", false);
    p.parser.as_mut().unwrap().next = 2;
    p.print_backref(Backref::Type);
    assert_eq!(p.out.as_ref().map(|b| b.as_str()), Some("{invalid syntax}"));
}

#[test]
fn printer_without_output_only_reads() {
    let mut p = Printer::reader(Parser::new(b"NvC3foo3barRB_"));
    p.print_path(true);
    assert!(p.out.is_none());
    assert_eq!(p.parser.as_ref().map(|q| (q.next, q.depth)), Ok((11, 0)));
    p.print_type();
    assert!(p.out.is_none());
    assert_eq!(p.parser.as_ref().map(|q| (q.next, q.depth)), Ok((14, 0)));
    let mut p = Printer::new(b"XC3fooB_NtC3foo3Bar", false);
    p.print_path(true);
    let text = p.out.unwrap().into_string();
    assert!(text.starts_with("<<<<"));
    assert!(text.contains("<{recursion limit reached} as foo::Bar>"));
    assert!(text.ends_with(" as foo::Bar> as foo::Bar>"));
    assert_eq!(p.parser.map(|q| (q.next, q.depth)), Ok((19, 0)));
    let mut p = Printer::new(b"C3foo!", false);
    p.skipping_printing();
    assert_eq!(p.out.as_ref().map(|b| b.as_str()), Some(""));
    assert_eq!(p.parser.as_ref().map(|q| q.next), Ok(5));
    assert!(p.eat(b'!'));
    assert!(!p.eat(b'!'));
    p.print("x");
    assert_eq!(p.out.as_ref().map(|b| b.as_str()), Some("x"));
}

#[test]
fn v0_recognition() {
    assert_eq!(v0::demangle("_RC3foo").map(|(_, rest)| rest.to_vec()), Ok(vec![]));
    assert_eq!(v0::demangle("RC3foo").map(|(_, rest)| rest.to_vec()), Ok(vec![]));
    assert_eq!(v0::demangle("__RC3foo").map(|(_, rest)| rest.to_vec()), Ok(vec![]));
    assert_eq!(v0::demangle("_RC3foo.x y").map(|(_, rest)| rest.to_vec()), Ok(b".x y".to_vec()));
    assert_eq!(v0::demangle("_RC3fooC3bar!").map(|(_, rest)| rest.to_vec()), Ok(b"!".to_vec()));
    assert_eq!(v0::demangle("_RC3fooB_").map(|(d, rest)| (d.display(false), rest.to_vec())), Ok(("foo".to_string(), vec![])));
    for sym in ["", "_R", "R", "__R", "_Rc3foo", "_RC3fo", "_RC3fooK", "_RC3fö", "___RC3foo", "_ZN3fooE"] {
        assert_eq!(v0::demangle(sym).map(|_| ()), Err(ParseError::Invalid), "{}", sym);
    }
    assert_eq!(v0::demangle_bytes(&[b'_', b'R', b'C', b'1', 0x80]).map(|_| ()), Err(ParseError::Invalid));
}

#[test]
fn v0_depth_limit_is_exact() {
    // The impl at depth 1, then one level for each reference.
    let within = format!("_RMC0{}p", "R".repeat(499));
    let beyond = format!("_RMC0{}p", "R".repeat(500));
    assert_eq!(v0::demangle(&within).map(|_| ()), Ok(()));
    assert_eq!(v0::demangle(&beyond).map(|_| ()), Err(ParseError::RecursedTooDeep));
    assert_eq!(
        rustc_demangle::demangle(&within).to_string(),
        format!("<{}_>", "&".repeat(499))
    );
    assert_eq!(rustc_demangle::demangle(&beyond).to_string(), beyond);
}

#[test]
fn v0_backref_to_the_first_byte() {
    // Not followed while checking, followed into a cycle while printing.
    assert!(v0::demangle("_RNvB_3bar").is_ok());
    let text = rustc_demangle::demangle("_RNvB_3bar").to_string();
    assert!(text.starts_with("{recursion limit reached}::?"));
    assert!(text.ends_with("::bar"));
}

#[test]
fn legacy_recognition() {
    assert_eq!(legacy::demangle("_ZN3foo3barE").map(|d| d.display(false)), Ok("foo::bar".to_string()));
    assert_eq!(legacy::demangle("ZN3fooE").map(|d| d.display(false)), Ok("foo".to_string()));
    assert_eq!(legacy::demangle("__ZN3fooE").map(|d| d.display(true)), Ok("foo".to_string()));
    assert_eq!(legacy::demangle_bytes(b"_ZN3foo2h1E").map(|d| d.display(true)), Ok("foo".to_string()));
    for sym in ["", "_ZN", "_ZNE", "ZNE", "__ZNE", "_ZN3foo", "_ZN3fooE.i", "_ZN4fooE", "_ZN3fooEE", "_ZN3fö1xE", "_RC3foo"] {
        assert!(legacy::demangle(sym).is_err(), "{}", sym);
    }
}

#[test]
fn format_buf_takes_what_fits() {
    let mut buf = FormatBuf::new(5);
    assert_eq!(buf.write_str("ab"), Ok(()));
    assert_eq!(buf.write_str("cdef"), Err(()));
    assert_eq!(buf.as_str(), "ab");
    assert_eq!(buf.write_str("cde"), Ok(()));
    assert_eq!(buf.write_str(""), Ok(()));
    assert_eq!(buf.write_str("f"), Err(()));
    assert_eq!(buf.into_string(), "abcde");
    // The bound is in bytes.
    let mut buf = FormatBuf::new(3);
    assert_eq!(buf.write_str("éé"), Err(()));
    assert_eq!(buf.write_str("é"), Ok(()));
    assert_eq!(buf.write_str("é"), Err(()));
    assert_eq!(buf.write_str("e"), Ok(()));
    assert_eq!(buf.as_str(), "ée");
    let mut buf = FormatBuf::unbounded();
    assert_eq!(buf.write_str(&"x".repeat(10000)), Ok(()));
    assert_eq!(buf.as_str().len(), 10000);
    assert_eq!(FormatBuf::new(0).write_str(""), Ok(()));
    assert_eq!(FormatBuf::new(0).write_str("a"), Err(()));
}

#[test]
fn printer_stops_when_the_sink_is_full() {
    let mut p = Printer::bounded(b"NvNvC3foo3bar3baz", false, 8);
    p.print_path(true);
    assert!(p.is_full());
    assert_eq!(p.parser.as_ref().err(), Some(&Stop::Full));
    assert_eq!(p.out.as_ref().map(|b| b.as_str()), Some("foo::bar"));
    p.print("x");
    p.print_type();
    assert!(!p.eat(b'N'));
    assert_eq!(p.print_sep_list(ListItem::Type, ", "), 0);
    assert_eq!(p.out.as_ref().map(|b| b.as_str()), Some("foo::bar"));
    let mut p = Printer::bounded(b"NvNvC3foo3bar3baz", false, 13);
    p.print_path(true);
    assert!(!p.is_full());
    assert_eq!(p.out.as_ref().map(|b| b.as_str()), Some("foo::bar::baz"));
    // An error message that does not fit fills the sink as well.
    let mut p = Printer::bounded(b"!", false, 4);
    p.print_path(true);
    assert_eq!(p.parser.as_ref().err(), Some(&Stop::Full));
    assert_eq!(p.out.as_ref().map(|b| b.as_str()), Some(""));
    // Lifetimes without end are not written into a full sink.
    let mut p = Printer::bounded(b"FGzzzzz_Eu", false, 20);
    p.print_type();
    assert!(p.is_full());
    assert_eq!(p.out.as_ref().map(|b| b.as_str()), Some("for<'a, 'b, 'c, 'd, "));
    assert_eq!(p.bound_lifetime_depth, 0);
}

#[test]
fn v0_display_within() {
    let (d, _) = v0::demangle("_RNvC6_123foo3bar").ok().unwrap();
    assert_eq!(d.display_within(false, 11), Some("123foo::bar".to_string()));
    assert_eq!(d.display_within(false, 10), None);
    assert_eq!(d.display_within(true, 1000), Some(d.display(true)));
    assert_eq!(d.display_within(true, 0), None);
}
