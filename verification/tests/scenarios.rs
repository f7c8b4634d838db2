use rustc_demangle::demangle;
use rustc_demangle::stream::demangle_line;
use rustc_demangle::text::asciify;
use rustc_demangle::try_demangle;
use rustc_demangle::try_demangle_bytes;

fn both(sym: &str) -> (String, String) {
    let d = demangle(sym);
    (d.to_string(), d.to_string_alternate())
}

fn pair(normal: &str, alternate: &str) -> (String, String) {
    (normal.to_string(), alternate.to_string())
}

#[test]
fn legacy_single_element() {
    assert_eq!(both("_ZN4testE"), pair("test", "test"));
}

#[test]
fn legacy_hash_is_hidden_in_alternate() {
    assert_eq!(
        both("_ZN3foo17h05af221e174051e9E"),
        pair("foo::h05af221e174051e9", "foo")
    );
}

#[test]
fn v0_crate_with_leading_digit_both_modes() {
    assert_eq!(both("_RNvC6_123foo3bar"), pair("123foo::bar", "123foo::bar"));
}

#[test]
fn v0_closures_with_crate_disambiguator() {
    assert_eq!(
        both("_RNCNCNgCs6DXkGYLi8lr_2cc5spawn00B5_"),
        pair(
            "cc[4d6468d6c9fd4bb3]::spawn::{closure#0}::{closure#0}",
            "cc::spawn::{closure#0}::{closure#0}"
        )
    );
}

#[test]
fn v0_const_generic_with_type() {
    assert_eq!(
        both("_RMC0INtC8arrayvec8ArrayVechKj7b_E"),
        pair("<arrayvec::ArrayVec<u8, 123usize>>", "<arrayvec::ArrayVec<u8, 123>>")
    );
}

#[test]
fn v0_punycode_identifier() {
    assert_eq!(
        both("_RNqCs4fqI2P2rA04_11utf8_identsu30____7hkackfecea1cbdathfdh9hlq6y"),
        pair(
            "utf8_idents[317d481089b8c8fe]::საჭმელად_გემრიელი_სადილი",
            "utf8_idents::საჭმელად_გემრიელი_სადილი"
        )
    );
}

#[test]
fn v0_backref_to_invalid_target() {
    assert_eq!(
        both("_RNvNvB0_1x1y"),
        pair("{invalid syntax}::x::y", "{invalid syntax}::x::y")
    );
}

#[test]
fn v0_suffix_is_kept() {
    assert_eq!(both("_RNvC6_123foo3bar.i"), pair("123foo::bar.i", "123foo::bar.i"));
}

#[test]
fn v0_dyn_trait_with_disambiguators() {
    assert_eq!(
        both("_RINbNbCskIICzLVDPPb_5alloc5alloc8box_freeDINbNiB4_5boxed5FnBoxuEp6OutputuEL_ECs1iopQbuBiw2_3std"),
        pair(
            "alloc[f15a878b47eb696b]::alloc::box_free::<dyn alloc[f15a878b47eb696b]::boxed::FnBox<(), Output = ()>>",
            "alloc::alloc::box_free::<dyn alloc::boxed::FnBox<(), Output = ()>>"
        )
    );
}

#[test]
fn v0_backref_cycle_hits_the_limit() {
    let mut expected = String::from("{recursion limit reached}::?");
    for _ in 0..166 {
        expected.push_str("::x");
    }
    expected.push_str("::y");
    assert_eq!(both("_RNvNvB1_1x1y"), (expected.clone(), expected));
}

#[test]
fn llvm_tail_is_dropped() {
    assert_eq!(
        both("_ZN9backtrace3foo17hbb467fcdaea5d79bE.llvm.A5310EB9"),
        pair("backtrace::foo::hbb467fcdaea5d79b", "backtrace::foo")
    );
    assert_eq!(
        both("_RNvC6_123foo3bar.llvm.A5310EB9"),
        pair("123foo::bar", "123foo::bar")
    );
}

#[test]
fn legacy_suffix_is_kept() {
    assert_eq!(
        both("_ZN9backtrace3foo17hbb467fcdaea5d79bE.i"),
        pair("backtrace::foo::hbb467fcdaea5d79b.i", "backtrace::foo.i")
    );
}

#[test]
fn empty_input() {
    assert_eq!(both(""), pair("", ""));
    assert!(try_demangle("").is_err());
}

#[test]
fn only_the_prefix() {
    for sym in ["_R", "R", "__R", "_ZN", "ZN", "__ZN", "_ZNE", "_", "__"] {
        assert!(try_demangle(sym).is_err());
        assert_eq!(both(sym), pair(sym, sym));
    }
}

#[test]
fn unrecognized_prints_as_given() {
    for sym in ["foo", "main", "_ZN4test", "_Rfoo", "héllo wörld", "_ZN3fooE.llvm moocow", "x.llvm.ABC"] {
        assert!(try_demangle(sym).is_err());
        assert_eq!(demangle(sym).to_string(), sym);
        assert_eq!(demangle(sym).to_string_alternate(), sym);
        assert_eq!(demangle(sym).as_str(), sym);
    }
}

#[test]
fn printing_again_what_is_not_a_symbol_changes_nothing() {
    for sym in ["_ZN3foo3barE", "_RNvC6_123foo3bar", "plain", "_RNvNvB0_1x1y"] {
        let once = demangle(sym).to_string();
        assert!(try_demangle(&once).is_err());
        assert_eq!(demangle(&once).to_string(), once);
    }
}

#[test]
fn as_str_gives_the_input() {
    assert_eq!(demangle("_ZN3fooE.llvm.9D1C9369").as_str(), "_ZN3fooE.llvm.9D1C9369");
    assert_eq!(demangle("_RNvC6_123foo3bar.i").as_str(), "_RNvC6_123foo3bar.i");
}

#[test]
fn handle_outlives_nothing_but_its_input() {
    let text = {
        let owned = String::from("_ZN3foo3barE");
        let d = demangle(&owned);
        d.to_string()
    };
    assert_eq!(text, "foo::bar");
}

#[test]
fn legacy_length_overflow() {
    let sym = "_ZN99999999999999999999999999999999999999999fooE";
    assert!(try_demangle(sym).is_err());
    assert_eq!(demangle(sym).to_string(), sym);
}

#[test]
fn legacy_without_hash_is_the_same_in_both_modes() {
    for sym in ["_ZN3foo3barE", "_ZN4test1a2bcE", "_ZN3foo16ffaf221e174051e9E", "_ZN3foo1hE"] {
        assert_eq!(demangle(sym).to_string(), demangle(sym).to_string_alternate());
    }
    assert_eq!(demangle("_ZN3foo1hE").to_string(), "foo::h");
}

#[test]
fn legacy_unknown_escape_ends_substitution() {
    assert_eq!(demangle("_ZN12ab$XY$cd..efE").to_string(), "ab$XY$cd..ef");
    assert_eq!(demangle("_ZN7a$u7e$bE").to_string(), "a~b");
    assert_eq!(demangle("_ZN7a$u7E$bE").to_string(), "a$u7E$b");
    assert_eq!(demangle("_ZN3a.bE").to_string(), "a.b");
    assert_eq!(demangle("_ZN4a..bE").to_string(), "a::b");
}

#[test]
fn legacy_each_escape() {
    assert_eq!(
        demangle("_ZN31$SP$$BP$$RF$$LT$$GT$$LP$$RP$$C$E").to_string(),
        "@*&<>(),"
    );
    assert_eq!(
        demangle("_ZN60$u7e$$u20$$u27$$u3d$$u5b$$u5d$$u7b$$u7d$$u3b$$u2b$$u21$$u22$E").to_string(),
        "~ '=[]{};+!\""
    );
}

#[test]
fn legacy_zero_length_tail() {
    assert_eq!(demangle("_ZN0E").to_string(), "");
    assert!(try_demangle("_ZN0E").is_ok());
    assert_eq!(demangle("_ZN3foo0E").to_string(), "foo");
    assert!(try_demangle("_ZN3foo0xE").is_err());
}

#[test]
fn stream_replaces_symbols_and_keeps_the_rest() {
    let line = "  0: _ZN3foo17h05af221e174051e9E (foo.rs:1) <_RNvC6_123foo3bar+0x10>\n";
    assert_eq!(
        String::from_utf8(demangle_line(line.as_bytes(), false)).unwrap(),
        "  0: foo::h05af221e174051e9 (foo.rs:1) <123foo::bar+0x10>\n"
    );
    assert_eq!(
        String::from_utf8(demangle_line(line.as_bytes(), true)).unwrap(),
        "  0: foo (foo.rs:1) <123foo::bar+0x10>\n"
    );
}

#[test]
fn stream_keeps_text_without_symbols() {
    for line in ["", "\n", "plain text, nothing else\n", "héllo — wörld", "(!) [#] {%}"] {
        assert_eq!(demangle_line(line.as_bytes(), false), line.as_bytes());
    }
    let raw: [u8; 5] = [0xff, 0x00, 0x80, 0x0a, 0xfe];
    assert_eq!(demangle_line(&raw, true), raw);
}

#[test]
fn stream_writes_unicode_identifiers_in_utf8() {
    let line = "call _RNqCs4fqI2P2rA04_11utf8_identsu30____7hkackfecea1cbdathfdh9hlq6y!";
    assert_eq!(
        String::from_utf8(demangle_line(line.as_bytes(), true)).unwrap(),
        "call utf8_idents::საჭმელად_გემრიელი_სადილი!"
    );
}

#[test]
fn stream_takes_whole_runs_only() {
    assert_eq!(
        demangle_line(b"x_ZN3fooE _ZN3fooE", false),
        b"x_ZN3fooE foo"
    );
}

#[test]
fn try_demangle_bytes_gives_text_or_nothing() {
    assert_eq!(try_demangle_bytes(b"_ZN3foo3barE.i", false), Some("foo::bar.i".to_string()));
    assert_eq!(try_demangle_bytes(b"foo", false), None);
    assert_eq!(try_demangle_bytes(&[0x5f, 0x52, 0xff], false), None);
}

#[test]
fn asciify_escapes_what_is_not_ascii() {
    assert_eq!(asciify("plain"), "plain");
    assert_eq!(asciify("a∂b"), "a\\u{2202}b");
    assert_eq!(asciify("α"), "\\u{3b1}");
    assert_eq!(asciify("\u{1f40a}\u{7f}"), "\\u{1f40a}\u{7f}");
    assert_eq!(asciify(""), "");
}

/// A small generator of reproducible pseudo-random numbers.
struct Lcg(u64);

impl Lcg {
    fn next(&mut self) -> u64 {
        self.0 = self.0.wrapping_mul(6364136223846793005).wrapping_add(1442695040888963407);
        self.0 >> 33
    }

    /// Whether a symbol under construction may take a backreference: one at
    /// most, since two in a cycle double the text at every turn.
    fn backref(&mut self, sym: &str) -> bool {
        !sym[2..].contains('B')
    }

    fn symbol(&mut self, prefix: &str, alphabet: &[u8], max_len: u64) -> String {
        let mut s = String::from(prefix);
        for _ in 0..self.next() % max_len {
            s.push(alphabet[(self.next() % alphabet.len() as u64) as usize] as char);
        }
        s
    }
}

fn gen_ident(rng: &mut Lcg, out: &mut String) {
    let names = ["", "x", "foo", "Far", "_1", "9lives", "a_b"];
    let name = names[(rng.next() % names.len() as u64) as usize];
    out.push_str(&name.len().to_string());
    if name.starts_with('_') || name.starts_with(|c: char| c.is_ascii_digit()) {
        out.push('_');
    }
    out.push_str(name);
}

fn gen_integer(rng: &mut Lcg, out: &mut String) {
    let digits = ["", "0", "1", "Z", "a1"];
    out.push_str(digits[(rng.next() % digits.len() as u64) as usize]);
    out.push('_');
}

fn gen_path(rng: &mut Lcg, out: &mut String, depth: u32) {
    match if depth == 0 { 0 } else { rng.next() % 8 } {
        0 | 1 => {
            out.push('C');
            if rng.next() % 2 == 0 {
                out.push('s');
                gen_integer(rng, out);
            }
            gen_ident(rng, out);
        }
        2 | 3 => {
            out.push('N');
            out.push(b"vtCSZ"[(rng.next() % 5) as usize] as char);
            // `B` is kept for backreferences here.
            gen_path(rng, out, depth - 1);
            if rng.next() % 3 == 0 {
                out.push('s');
                gen_integer(rng, out);
            }
            gen_ident(rng, out);
        }
        4 => {
            out.push('M');
            gen_path(rng, out, depth - 1);
            gen_type(rng, out, depth - 1);
        }
        5 => {
            out.push(if rng.next() % 2 == 0 { 'X' } else { 'Y' });
            if out.ends_with('X') {
                gen_path(rng, out, depth - 1);
            }
            gen_type(rng, out, depth - 1);
            gen_path(rng, out, depth - 1);
        }
        6 => {
            out.push('I');
            gen_path(rng, out, depth - 1);
            for _ in 0..rng.next() % 3 {
                match rng.next() % 4 {
                    0 => {
                        out.push('L');
                        gen_integer(rng, out);
                    }
                    1 => {
                        out.push('K');
                        gen_const(rng, out);
                    }
                    _ => gen_type(rng, out, depth - 1),
                }
            }
            out.push('E');
        }
        _ if rng.backref(out) => {
            out.push('B');
            gen_integer(rng, out);
        }
        _ => gen_path(rng, out, 0),
    }
}

fn gen_const(rng: &mut Lcg, out: &mut String) {
    let consts = ["p", "h7b_", "jff_", "in1_", "b0_", "b1_", "c76_", "c2202_", "o10000000000000000f_", "b2_"];
    out.push_str(consts[(rng.next() % consts.len() as u64) as usize]);
}

fn gen_type(rng: &mut Lcg, out: &mut String, depth: u32) {
    match if depth == 0 { 0 } else { rng.next() % 12 } {
        0 | 1 | 2 => out.push(b"bceuaslxnihtmyojfdzpv"[(rng.next() % 21) as usize] as char),
        3 => {
            out.push(if rng.next() % 2 == 0 { 'R' } else { 'Q' });
            if rng.next() % 3 == 0 {
                out.push('L');
                gen_integer(rng, out);
            }
            gen_type(rng, out, depth - 1);
        }
        4 => {
            out.push(if rng.next() % 2 == 0 { 'P' } else { 'O' });
            gen_type(rng, out, depth - 1);
        }
        5 => {
            out.push('A');
            gen_type(rng, out, depth - 1);
            gen_const(rng, out);
        }
        6 => {
            out.push('S');
            gen_type(rng, out, depth - 1);
        }
        7 => {
            out.push('T');
            for _ in 0..rng.next() % 3 {
                gen_type(rng, out, depth - 1);
            }
            out.push('E');
        }
        8 => {
            out.push('F');
            if rng.next() % 2 == 0 {
                out.push('G');
                gen_integer(rng, out);
            }
            if rng.next() % 3 == 0 {
                out.push('U');
            }
            if rng.next() % 3 == 0 {
                out.push_str(if rng.next() % 2 == 0 { "KC" } else { "K8C_unwind" });
            }
            for _ in 0..rng.next() % 3 {
                gen_type(rng, out, depth - 1);
            }
            out.push('E');
            gen_type(rng, out, depth - 1);
        }
        9 => {
            out.push('D');
            if rng.next() % 2 == 0 {
                out.push('G');
                gen_integer(rng, out);
            }
            for _ in 0..rng.next() % 3 {
                gen_path(rng, out, depth - 1);
                if rng.next() % 3 == 0 {
                    out.push('p');
                    gen_ident(rng, out);
                    gen_type(rng, out, depth - 1);
                }
            }
            out.push('E');
            out.push('L');
            gen_integer(rng, out);
        }
        10 if rng.backref(out) => {
            out.push('B');
            gen_integer(rng, out);
        }
        _ => gen_path(rng, out, depth - 1),
    }
}

#[test]
fn arbitrary_v0_symbols_read_alike_in_both_modes() {
    let mut rng = Lcg(7);
    let mut recognized = 0;
    let mut failing = 0;
    for round in 0..4000 {
        let mut sym = String::from("_R");
        gen_path(&mut rng, &mut sym, 4);
        if round % 5 == 0 && sym.len() > 3 {
            // Damage the symbol somewhere behind its prefix.
            let at = 2 + (rng.next() as usize) % (sym.len() - 2);
            sym.replace_range(at..at + 1, "!");
        }
        let d = demangle(&sym);
        let (normal, alternate) = (d.to_string(), d.to_string_alternate());
        for message in ["{invalid syntax}", "{recursion limit reached}", "?"] {
            assert_eq!(normal.contains(message), alternate.contains(message), "{}", sym);
        }
        assert!(alternate.len() <= normal.len(), "{}", sym);
        if try_demangle(&sym).is_ok() {
            recognized += 1;
            if normal.contains("{invalid syntax}") || normal.contains("{recursion limit reached}") {
                failing += 1;
            }
            // What is left of normal output without brackets is alternate
            // output without the types of constants in it.
            let mut bare = String::new();
            let mut inside = false;
            for c in normal.chars() {
                match c {
                    '[' if !inside => inside = bare.ends_with(|c: char| c.is_ascii_alphanumeric() || c == '_'),
                    ']' if inside => inside = false,
                    _ if inside => {}
                    _ => bare.push(c),
                }
                if c == '[' && !inside {
                    bare.push(c);
                }
            }
            assert!(bare.len() >= alternate.len(), "{}", sym);
        } else {
            assert_eq!(normal, sym);
            assert_eq!(alternate, sym);
        }
    }
    assert!(recognized > 1000);
    assert!(failing > 10);
}

#[test]
fn arbitrary_legacy_symbols_differ_by_the_hash_only() {
    let alphabet = b"0123456789123hhaf$._ESPCuLTGR";
    let mut rng = Lcg(11);
    let mut recognized = 0;
    for _ in 0..20000 {
        let mut sym = rng.symbol("_ZN", alphabet, 16);
        sym.push('E');
        let d = demangle(&sym);
        let (normal, alternate) = (d.to_string(), d.to_string_alternate());
        assert!(normal.starts_with(&alternate), "{}", sym);
        if try_demangle(&sym).is_ok() {
            recognized += 1;
            let cut = &normal[alternate.len()..];
            let hash = cut.strip_prefix("::").unwrap_or(cut);
            assert!(
                hash.is_empty()
                    || (hash.len() >= 2
                        && hash.starts_with('h')
                        && hash[1..].chars().all(|c| c.is_ascii_hexdigit())),
                "{}",
                sym
            );
        } else {
            assert_eq!(normal, sym);
        }
    }
    assert!(recognized > 100);
}

#[test]
fn arbitrary_text_streams_through() {
    let alphabet = b"_ZN3fooE RC1x.$@\n(\xc3\xa9)B_u0";
    let mut rng = Lcg(13);
    for _ in 0..5000 {
        let line = rng.symbol("", alphabet, 40).into_bytes();
        let out = demangle_line(&line, false);
        let plain: Vec<u8> = line.iter().copied().filter(|b| !b.is_ascii_alphanumeric() && !b"._@$".contains(b)).collect();
        let kept: Vec<u8> = out.iter().copied().filter(|b| plain.contains(b)).collect();
        assert!(kept.len() >= plain.len());
    }
}

#[test]
fn display_within_gives_all_or_nothing() {
    let d = demangle("_ZN3foo17h05af221e174051e9E.i");
    assert_eq!(d.display_within(false, 24), Some("foo::h05af221e174051e9.i".to_string()));
    assert_eq!(d.display_within(false, 23), None);
    assert_eq!(d.display_within(true, 5), Some("foo.i".to_string()));
    assert_eq!(d.display_within(true, 4), None);
    let d = demangle("_RNvC6_123foo3bar.i");
    assert_eq!(d.display_within(false, 13), Some("123foo::bar.i".to_string()));
    assert_eq!(d.display_within(false, 12), None);
    assert_eq!(d.display_within(false, 11), None);
    let d = demangle("héllo");
    assert_eq!(d.display_within(false, 6), Some("héllo".to_string()));
    assert_eq!(d.display_within(false, 5), None);
    let d = demangle("_RNqCs4fqI2P2rA04_11utf8_identsu30____7hkackfecea1cbdathfdh9hlq6y");
    let text = "utf8_idents::საჭმელად_გემრიელი_სადილი";
    assert_eq!(d.display_within(true, text.len()), Some(text.to_string()));
    assert_eq!(d.display_within(true, text.len() - 1), None);
}

#[test]
fn display_within_ends_a_doubling_text_early() {
    // Each of the backreferences doubles the text: some 2^36 copies in all.
    let mut sym = String::from("_RMC0");
    for _ in 0..36 {
        sym.push('T');
    }
    sym.push('p');
    for i in (0..36).rev() {
        sym.push('B');
        let offset = 4 + i;
        let digits: Vec<char> = "0123456789abcdefghijklmnopqrstuvwxyzABCDEFGHIJKLMNOPQRSTUVWXYZ".chars().collect();
        let v = offset - 1;
        if v >= 62 {
            sym.push(digits[v / 62]);
        }
        sym.push(digits[v % 62]);
        sym.push('_');
        sym.push('E');
    }
    let d = demangle(&sym);
    assert!(try_demangle(&sym).is_ok());
    assert_eq!(d.display_within(false, 1 << 16), None);
    assert_eq!(d.display_within(true, 0), None);
}
