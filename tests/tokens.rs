use fipa::util::keyword;
use fipa::parser::{
    parse_annotation, parse_fqn, parse_identifier, parse_imported_fqn,
    parse_integer, parse_integer_bin, parse_integer_decimal, parse_integer_hex, parse_package,
    parse_string, parse_type_ref, parse_version, Mismatch,
};
use fipa::ast::TypeRef;

#[test]
fn test_keyword() {
    assert_eq!(keyword("identifier", "identifier _ax"), Ok((" _ax", "identifier")));
    assert!(keyword("module", "moduleA").is_err());
}

#[test]
fn parser_test_annotation() {
    assert_eq!(parse_annotation("<** an annotation \n comment with multiple \n lines **> adf"),
        Ok(("adf", Some(" an annotation \n comment with multiple \n lines ".to_string()))));
    assert_eq!(parse_annotation("<**an annotation**>\n adf"),
        Ok(("adf", Some("an annotation".to_string()))));
    assert_eq!(parse_annotation("\n  <*an annotation**>\n adf"),
        Ok(("\n  <*an annotation**>\n adf", None)));
}

#[test]
fn lib_test_annotation() {
    assert_eq!(parse_annotation("<** an annotation \n comment with multiple \n lines **> adf"),
        Ok(("adf", Some(" an annotation \n comment with multiple \n lines ".to_string()))));
    assert_eq!(parse_annotation("<**an annotation**>\n adf"),
        Ok(("adf", Some("an annotation".to_string()))));
    assert_eq!(parse_annotation("\n  <*an annotation**>\n adf"),
        Ok(("\n  <*an annotation**>\n adf", None)));
}

#[test]
fn annotation_stops_at_first_close() {
    assert_eq!(parse_annotation("<** a **> b **> c"), Ok(("b **> c", Some(" a ".to_string()))));
    assert_eq!(parse_annotation("<** never closed"), Ok(("<** never closed", None)));
}

#[test]
fn parser_test_version() {
    assert_eq!(parse_version("version{ major 1 minor 3}"), Ok(("", Some((1, 3)))));
    assert_eq!(parse_version("not a version"), Ok(("not a version", None)));
}

#[test]
fn lib_test_version() {
    assert_eq!(parse_version("version{ major 1 minor 3}"), Ok(("", Some((1, 3)))));
    assert_eq!(parse_version("not a version"), Ok(("not a version", None)));
}

#[test]
fn version_out_of_range_is_absent() {
    let txt = "version { major 4294967296 minor 0 }";
    assert_eq!(parse_version(txt), Ok((txt, None)));
    assert_eq!(parse_version("version { major 4294967295 minor 7 } x"),
        Ok(("x", Some((4294967295, 7)))));
}

#[test]
fn parser_test_string() {
    assert_eq!(parse_string("\"a string \"add"), Ok(("add", "a string ".to_string())));
    assert_eq!(parse_string("\'a string \'add"), Ok(("add", "a string ".to_string())));
}

#[test]
fn lib_test_string() {
    assert_eq!(parse_string("\"a string \"add"), Ok(("add", "a string ".to_string())));
    assert_eq!(parse_string("\'a string \'add"), Ok(("add", "a string ".to_string())));
}

#[test]
fn string_needs_matching_quote() {
    assert_eq!(parse_string("'mixed\" quotes'x"), Ok(("x", "mixed\" quotes".to_string())));
    assert_eq!(parse_string("'unterminated"), Err(Mismatch));
}

#[test]
fn parser_test_identifier_ok() {
    assert_eq!(parse_identifier("aSimpleIdentifier"), Ok(("", "aSimpleIdentifier")));
    assert_eq!(parse_identifier("Simple_Identifier9 adfj"), Ok((" adfj", "Simple_Identifier9")));
    assert_eq!(parse_identifier("^_aNew_identity!09adf"), Ok(("!09adf", "^_aNew_identity")));
}

#[test]
fn lib_test_identifier_ok() {
    assert_eq!(parse_identifier("aSimpleIdentifier"), Ok(("", "aSimpleIdentifier")));
    assert_eq!(parse_identifier("Simple_Identifier9 adfj"), Ok((" adfj", "Simple_Identifier9")));
    assert_eq!(parse_identifier("^_aNew_identity!09adf"), Ok(("!09adf", "^_aNew_identity")));
}

#[test]
fn parser_test_identifier_nok() {
    assert_eq!(parse_identifier(" aSimpleIdentifier"), Err(Mismatch));
    assert_eq!(parse_identifier("9invalid with number"), Err(Mismatch));
    assert_eq!(parse_identifier("!ui ui"), Err(Mismatch));
}

#[test]
fn lib_test_identifier_nok() {
    assert_eq!(parse_identifier(" aSimpleIdentifier"), Err(Mismatch));
    assert_eq!(parse_identifier("9invalid with number"), Err(Mismatch));
    assert_eq!(parse_identifier("!ui ui"), Err(Mismatch));
}

#[test]
fn test_imported_fqn() {
    assert_eq!(parse_imported_fqn("ac.b.de  "), Ok(("", "ac.b.de")));
    assert_eq!(parse_imported_fqn("_a.cde.zd1.* "), Ok(("", "_a.cde.zd1.*")));
}

#[test]
fn parser_test_fqn_ok() {
    assert_eq!(parse_fqn("acad.ad09_.ab"), Ok(("", "acad.ad09_.ab")));
    assert_eq!(parse_fqn("_903.xaf.Ab9.__holla therest"), Ok((" therest", "_903.xaf.Ab9.__holla")));
    assert_eq!(parse_fqn("_903 xaf.Ab9.__holla therest"), Ok((" xaf.Ab9.__holla therest", "_903")));
}

#[test]
fn lib_test_fqn_ok() {
    assert_eq!(parse_fqn("acad.ad09_.ab"), Ok(("", "acad.ad09_.ab")));
    assert_eq!(parse_fqn("_903.xaf.Ab9.__holla therest"), Ok((" therest", "_903.xaf.Ab9.__holla")));
    assert_eq!(parse_fqn("_903 xaf.Ab9.__holla therest"), Ok((" xaf.Ab9.__holla therest", "_903")));
}

#[test]
fn parser_test_fqn_nok() {
    assert_eq!(parse_fqn("0acad.ad09_.ab"), Err(Mismatch));
}

#[test]
fn lib_test_fqn_nok() {
    assert_eq!(parse_fqn("0acad.ad09_.ab"), Err(Mismatch));
}

#[test]
fn fqn_stops_before_dangling_dot() {
    assert_eq!(parse_fqn("a.b. c"), Ok((". c", "a.b")));
}

#[test]
fn parser_test_package_ok() {
    assert_eq!(parse_package("  package    my.package"), Ok(("", "my.package".to_string())));
    assert_eq!(parse_package("package ^anew.package.p01\nrubbish"),
        Ok(("rubbish", "^anew.package.p01".to_string())));
}

#[test]
fn parser_test_package_nok() {
    assert_eq!(parse_package("  ackage    my.package"), Err(Mismatch));
}

#[test]
fn lib_test_package_nok() {
    assert_eq!(parse_package("  ackage    my.package"), Err(Mismatch));
}

#[test]
fn package_with_surrounding_whitespace() {
    assert_eq!(parse_package("\n\t package a.b.c \n"), Ok(("", "a.b.c".to_string())));
    assert_eq!(parse_package("package a.b.c"), Ok(("", "a.b.c".to_string())));
    assert_eq!(parse_package("packagea.b.c"), Err(Mismatch));
}

#[test]
fn test_integer_decimal() {
    assert_eq!(parse_integer_decimal("1234"), Ok(("", 1234u64)));
    assert_eq!(parse_integer_decimal("0"), Ok(("", 0u64)));
    assert_eq!(parse_integer_decimal("65535"), Ok(("", 0xffffu64)));
}

#[test]
fn test_integer_hex() {
    assert_eq!(parse_integer_hex("0x1234"), Ok(("", 0x1234u64)));
    assert_eq!(parse_integer_hex("0X0"), Ok(("", 0u64)));
    assert_eq!(parse_integer_hex("0xffffffff"), Ok(("", 0xffffffffu64)));
}

#[test]
fn test_integer_binary() {
    assert_eq!(parse_integer_bin("0b1101"), Ok(("", 13u64)));
    assert_eq!(parse_integer_bin("0B11110001"), Ok(("", 0xf1u64)));
    assert_eq!(parse_integer_bin("0b0"), Ok(("", 0)));
}

#[test]
fn integer_literal_forms() {
    assert_eq!(parse_integer("0x1A"), Ok(("", 26u64)));
    assert_eq!(parse_integer("0b11, "), Ok((", ", 3u64)));
    assert_eq!(parse_integer("26"), Ok(("", 26u64)));
    assert_eq!(parse_integer("18446744073709551615"), Ok(("", u64::MAX)));
    assert_eq!(parse_integer("18446744073709551616"), Err(Mismatch));
    assert_eq!(parse_integer("0x"), Ok(("x", 0u64)));
    assert_eq!(parse_integer("x1"), Err(Mismatch));
}

#[test]
fn type_ref_classification() {
    assert_eq!(parse_type_ref("Int8 x"), Ok((" x", TypeRef::Int8)));
    assert_eq!(parse_type_ref("undefined"), Ok(("", TypeRef::Undefined)));
    assert_eq!(parse_type_ref("ByteBuffer"), Ok(("", TypeRef::ByteBuffer)));
    assert_eq!(parse_type_ref("Double"), Ok(("", TypeRef::Double)));
    assert_eq!(parse_type_ref("a.b.Int8"), Ok(("", TypeRef::Derived("a.b.Int8".to_string()))));
    assert_eq!(parse_type_ref("int8"), Ok(("", TypeRef::Derived("int8".to_string()))));
    assert_eq!(parse_type_ref("8bit"), Err(Mismatch));
}

#[test]
fn keyword_must_end_at_a_word_boundary() {
    assert_eq!(parse_package("package_x"), Err(Mismatch));
    assert_eq!(parse_package("package9 a"), Err(Mismatch));
    assert_eq!(parse_package("package^a"), Err(Mismatch));
    assert_eq!(parse_package("package.a"), Err(Mismatch));
    assert_eq!(keyword("method", "method_m {}"), Err(Mismatch));
    assert_eq!(keyword("method", "method{}"), Ok(("{}", "method")));
}

#[test]
fn version_needs_space_before_minor() {
    assert_eq!(parse_version("version { major 1minor 2 }"), Ok(("version { major 1minor 2 }", None)));
}
