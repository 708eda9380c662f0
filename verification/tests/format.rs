use use_normalizer::format_uses;
use use_normalizer::Indent;

fn ok(input: &str) -> String {
    match format_uses(input) {
        Ok(out) => out,
        Err(e) => panic!("unexpected malformed line {}: {}", e.index, e.line),
    }
}

#[test]
fn test_sort() {
    let output = ok(
        "    use a::b::{C, B};
                use a::b::A;
                use a::b;
                use c::d::T;
                pub use p;
            ",
    );
    assert_eq!(output, "    pub use p;\n    use a::b;\n    use a::b::{A, B, C};\n    use c::d::T;\n");
}

#[test]
fn reference_scenario() {
    let output = ok(
        "    use a::b::{C, B};\n    use a::b::A;\n    use a::b;\n    use c::d::T;\n    pub use p;\n",
    );
    assert_eq!(output, "    pub use p;\n    use a::b;\n    use a::b::{A, B, C};\n    use c::d::T;\n");
}

#[test]
fn idempotent_on_reference_scenario() {
    let once = ok(
        "    use a::b::{C, B};\n    use a::b::A;\n    use a::b;\n    use c::d::T;\n    pub use p;\n",
    );
    let twice = ok(&once);
    assert_eq!(once, twice);
}

#[test]
fn idempotent_on_private_groups() {
    let once = ok("use z::y::{B, A};\nuse a::b;\nuse a::b::C;\n");
    let twice = ok(&once);
    assert_eq!(once, twice);
}

#[test]
fn merges_same_key_into_one_line() {
    assert_eq!(ok("use a::b::C;\nuse a::b::D;\n"), "use a::b::{C, D};\n");
}

#[test]
fn merge_deduplicates() {
    assert_eq!(ok("use a::b::C;\nuse a::b::C;\n"), "use a::b::C;\n");
    assert_eq!(ok("use a::b::{C, D};\nuse a::b::{D, E};\n"), "use a::b::{C, D, E};\n");
}

#[test]
fn sorts_public_before_private_then_paths_then_symbols() {
    let output = ok("use z::z::A;\nuse a::a::B;\npub use m::n;\nuse a::a::{D, C};\n");
    assert_eq!(output, "pub use m::n;\nuse a::a::{B, C, D};\nuse z::z::A;\n");
}

#[test]
fn sentinel_line_comes_before_symbol_line() {
    assert_eq!(ok("use a::b;\nuse a::b::C;\n"), "use a::b;\nuse a::b::C;\n");
    assert_eq!(ok("use a::b::C;\nuse a::b;\n"), "use a::b;\nuse a::b::C;\n");
}

#[test]
fn single_symbol_never_braced_multiple_braced() {
    assert_eq!(ok("use a::b::{C};\n"), "use a::b::C;\n");
    assert_eq!(ok("use a::b::C;\nuse a::b::{D};\n"), "use a::b::{C, D};\n");
}

#[test]
fn public_single_symbol_drops_the_public_keyword() {
    // Documented quirk kept for compatibility: a public group with exactly
    // one symbol is emitted under a plain `use`.
    assert_eq!(ok("pub use a::b::C;\n"), "use a::b::C;\n");
    assert_eq!(ok("pub use a::b::{C, D};\n"), "use a::b::{C, D};\n");
}

#[test]
fn indent_detected_from_first_nonblank_line() {
    assert_eq!(ok("  use a::B;\nuse c::D;\n"), "  use a::B;\n  use c::D;\n");
    assert_eq!(ok("\tuse a::B;\n\t\tuse c::D;\n"), "\tuse a::B;\n\tuse c::D;\n");
    // A whitespace-only first line is skipped as a statement but still
    // fixes the indent.
    assert_eq!(ok("   \nuse a::B;\n"), "   use a::B;\n");
}

#[test]
fn empty_input_gives_empty_output() {
    assert_eq!(ok(""), "");
    assert_eq!(ok("\n\n"), "");
}

#[test]
fn crlf_lines_are_accepted() {
    assert_eq!(ok("use a::B;\r\nuse a::C;\r\n"), "use a::{B, C};\n");
}

#[test]
fn segments_are_space_trimmed() {
    assert_eq!(ok("use a :: b::C;\n"), "use a::b::C;\n");
    assert_eq!(ok("use a::b::{ C , B };\n"), "use a::b::{B, C};\n");
}

#[test]
fn empty_brace_list_is_a_bare_import() {
    assert_eq!(ok("use a::{};\n"), "use a;\n");
}

#[test]
fn uppercase_leaf_is_a_symbol_lowercase_is_a_module() {
    // B and C are symbols of a, so they merge into one brace group ...
    assert_eq!(ok("use a::B;\nuse a::C;\n"), "use a::{B, C};\n");
    // ... while lowercase leaves are whole-module imports with distinct keys.
    assert_eq!(ok("use a::b;\nuse a::c;\n"), "use a::b;\nuse a::c;\n");
}

#[test]
fn malformed_line_is_reported() {
    match format_uses("foo\n") {
        Ok(out) => panic!("expected an error, got {:?}", out),
        Err(e) => {
            assert_eq!(e.index, 0);
            assert_eq!(e.line, "foo");
        },
    }
    match format_uses("use a::B;\nnonsense;\nuse c::D;\n") {
        Ok(out) => panic!("expected an error, got {:?}", out),
        Err(e) => {
            assert_eq!(e.index, 1);
            assert_eq!(e.line, "nonsense;");
        },
    }
}

#[test]
fn empty_trailing_segment_is_malformed() {
    assert!(format_uses("use a::;\n").is_err());
    assert!(format_uses("use B;\n").is_err());
}

#[test]
fn indent_rendering() {
    assert_eq!(Indent::Space(4).to_string(), "    ");
    assert_eq!(Indent::Tab(2).to_string(), "\t\t");
    assert_eq!(Indent::Space(0).to_string(), "");
}
