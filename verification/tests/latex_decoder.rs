use paperman::latex_decoder::decode_latex;
use unicode_normalization::UnicodeNormalization;

#[test]
fn decode_plain_ascii_text() {
    let input = "Hello World! 123 _";
    let result = decode_latex(input);
    assert_eq!(result, input)
}

#[test]
fn decode_plain_text_with_whitespace() {
    let input = "Hello World!\nHello Other World";
    let result = decode_latex(input);
    assert_eq!(result, input)
}

#[test]
fn decode_plain_text_with_accent() {
    let input = "Hello ÄäéÉñöåä";
    let result = decode_latex(input);
    assert_eq!(result, input)
}

#[test]
fn decode_plain_text_with_brace() {
    let result = decode_latex("Hello {world}");
    assert_eq!(result, "Hello world");
}

#[test]
fn decode_plain_text_with_escaped_brace() {
    let result = decode_latex(r"Hello \{world\}");
    assert_eq!(result, "Hello {world}");
}

#[test]
fn decode_plain_text_with_percentage() {
    let result = decode_latex("Hello %world%");
    assert_eq!(result, "Hello %world%");
}

#[test]
fn decode_plain_text_with_escaped_percentage() {
    let result = decode_latex(r"Hello \%world\%");
    assert_eq!(result, "Hello %world%");
}

#[test]
fn decode_plain_text_with_escaped_backslash() {
    let result = decode_latex(r"Hello \\world\\");
    assert_eq!(result, r"Hello \world\");
}

#[test]
fn decode_plain_text_with_backslash() {
    let result = decode_latex(r"Hello \ world");
    assert_eq!(result, "Hello  world");
}

#[test]
fn decode_with_triple_backslash() {
    let result = decode_latex(r"Hello \\\ world");
    assert_eq!(result, r"Hello \ world");
}

#[test]
fn decode_with_quad_backslash() {
    let result = decode_latex(r"Hello \\\\ world");
    assert_eq!(result, r"Hello \\ world");
}

#[test]
fn decode_umlaut_a() {
    let result = decode_latex("Hello \\\"a");
    assert_eq!(result, "Hello ä");
}

#[test]
fn decode_umlaut_o() {
    let result = decode_latex("Hello \\\"o");
    assert_eq!(result, "Hello ö");
}

#[test]
fn decode_ring_over_a() {
    let result = decode_latex(r"Hello \ra");
    assert_eq!(result, "Hello å");
}

#[test]
fn decode_ring_over_a_alt() {
    let result = decode_latex(r"Hello \aa");
    assert_eq!(result, "Hello å");
}

#[test]
fn decode_grave_accent() {
    let result = decode_latex(r"Hello \`o");
    assert_eq!(result, "Hello ò");
}

#[test]
fn decode_acute_accent() {
    let result = decode_latex(r"Hello \'o");
    assert_eq!(result, "Hello ó");
}

#[test]
fn decode_circumflex() {
    let result = decode_latex(r"Hello \^o");
    assert_eq!(result, "Hello ô");
}

#[test]
fn decode_long_umlaut() {
    let result = decode_latex(r"Hello \Ho");
    assert_eq!(result, "Hello o\u{030B}".nfc().collect::<String>());
}

#[test]
fn decode_tilde() {
    let result = decode_latex(r"Hello \~o");
    assert_eq!(result, "Hello õ");
}

#[test]
fn decode_cedilla() {
    let result = decode_latex(r"Hello \cc");
    assert_eq!(result, "Hello c\u{0327}".nfc().collect::<String>());
}

#[test]
fn decode_ogonek() {
    let result = decode_latex(r"Hello \ka");
    assert_eq!(result, "Hello a\u{0328}".nfc().collect::<String>());
}

#[test]
fn decode_barred() {
    let result = decode_latex(r"Hello \l");
    assert_eq!(result, "Hello \u{0142}".nfc().collect::<String>());
}

#[test]
fn decode_macron() {
    let result = decode_latex(r"Hello \=o");
    assert_eq!(result, "Hello o\u{0304}".nfc().collect::<String>());
}

#[test]
fn decode_overdot() {
    let result = decode_latex(r"Hello \.a");
    assert_eq!(result, "Hello a\u{0307}".nfc().collect::<String>());
}

#[test]
fn decode_underdot() {
    let result = decode_latex(r"Hello \da");
    assert_eq!(result, "Hello a\u{0323}".nfc().collect::<String>());
}

#[test]
fn decode_breve() {
    let result = decode_latex(r"Hello \uo");
    assert_eq!(result, "Hello o\u{0306}".nfc().collect::<String>());
}

#[test]
fn decode_caron() {
    let result = decode_latex(r"Hello \vs");
    assert_eq!(result, "Hello s\u{030C}".nfc().collect::<String>());
}

#[test]
fn decode_slashed() {
    let result = decode_latex(r"Hello \o");
    assert_eq!(result, "Hello \u{00F8}");
}

#[test]
fn decode_dotless_i() {
    let result = decode_latex(r"Hello \^{\i}");
    assert_eq!(result, "Hello î");
}

#[test]
fn decode_dotless_j() {
    let result = decode_latex(r"Hello \^{\j}");
    assert_eq!(result, "Hello ĵ");
}

#[test]
fn decode_multiple_diacritics() {
    let result = decode_latex(r"Hello \~n\ra world");
    assert_eq!(result, "Hello ñå world");
}

#[test]
fn decode_chars_after_diacritic() {
    let result = decode_latex(r"Hello \'o world");
    assert_eq!(result, "Hello ó world");
}

#[test]
fn decode_diacritic_in_braces() {
    let result = decode_latex(r"Hello \'{o}");
    assert_eq!(result, "Hello ó");
}

#[test]
fn decode_double_brace() {
    let result = decode_latex(r"Hello \'{{o}}");
    assert_eq!(result, "Hello ó");
}

#[test]
fn decode_complex_string() {
    let result = decode_latex(r"Hello \'{o in braces} world \{\~{n\`o}\} after");
    assert_eq!(result, "Hello ó in braces world {ñò} after");
}
