use blc_client::combinators;
use blc_client::error::{BlcError, HexFault, SyntaxFault};
use blc_client::text::{parse_blc_text, parse_lambda_text};
use blc_client::Term;

#[test]
fn test_parse_hex() {
    let term = parse_blc_text("0x20").unwrap();
    assert_eq!(term, combinators::identity());
}

#[test]
fn test_parse_lambda() {
    let term = parse_blc_text("λ.0").unwrap();
    assert_eq!(term, combinators::identity());
}

#[test]
fn backslash_and_names_parse_as_abstraction() {
    assert_eq!(parse_blc_text("\\.0").unwrap(), combinators::identity());
    assert_eq!(parse_blc_text("λx.λy.1").unwrap(), combinators::church_true());
    assert_eq!(parse_blc_text("  \\x . \\y . 0  ").unwrap(), combinators::church_false());
}

#[test]
fn applications_and_numerals_parse() {
    assert_eq!(
        parse_blc_text("λ.λ.λ.((2 0) (1 0))").unwrap(),
        combinators::s_combinator()
    );
    assert_eq!(
        parse_blc_text("(λ.0 λ.0)").unwrap(),
        Term::App(
            Box::new(combinators::identity()),
            Box::new(combinators::identity())
        )
    );
    assert_eq!(parse_lambda_text("123").unwrap(), Term::Var(123));
}

#[test]
fn text_of_a_term_parses_back() {
    for t in [
        combinators::s_combinator(),
        combinators::church_one(),
        combinators::church_true(),
    ] {
        assert_eq!(parse_blc_text(&t.to_text()).unwrap(), t);
    }
}

#[test]
fn hex_without_prefix_parses() {
    assert_eq!(parse_blc_text("0C").unwrap(), combinators::church_true());
    assert_eq!(parse_blc_text("4880").unwrap(), parse_blc_text("(λ.0 λ.0)").unwrap());
}

#[test]
fn bad_hex_is_refused() {
    assert!(matches!(
        parse_blc_text("0x2"),
        Err(BlcError::InvalidHexEncoding(_))
    ));
    assert!(matches!(
        parse_blc_text("0xzz"),
        Err(BlcError::InvalidHexEncoding(_))
    ));
    // a lone digit reads as hexadecimal of odd length
    assert!(matches!(
        parse_blc_text("0"),
        Err(BlcError::InvalidHexEncoding(_))
    ));
}

#[test]
fn hex_that_ends_inside_a_term() {
    assert_eq!(
        parse_blc_text("0x04"),
        Err(BlcError::UnexpectedEndOfInput { position: 8 })
    );
}

#[test]
fn lambda_syntax_errors() {
    assert_eq!(
        parse_blc_text("λ."),
        Err(BlcError::UnexpectedEndOfInput { position: 2 })
    );
    assert_eq!(
        parse_blc_text("(λ.0 λ.0"),
        Err(BlcError::MalformedTextSyntax {
            position: 8,
            fault: SyntaxFault::MissingCloseParen
        })
    );
    assert_eq!(
        parse_blc_text("λ.?"),
        Err(BlcError::MalformedTextSyntax {
            position: 2,
            fault: SyntaxFault::UnexpectedCharacter('?')
        })
    );
    assert_eq!(
        parse_lambda_text("99999999999999999999999"),
        Err(BlcError::MalformedTextSyntax {
            position: 0,
            fault: SyntaxFault::InvalidNumeral
        })
    );
}

#[test]
fn hex_faults_name_the_offending_character() {
    assert_eq!(
        parse_blc_text("0x2"),
        Err(BlcError::InvalidHexEncoding(HexFault::OddLength))
    );
    assert_eq!(
        parse_blc_text("0x2g"),
        Err(BlcError::InvalidHexEncoding(HexFault::InvalidCharacter { c: 'g', index: 1 }))
    );
    assert_eq!(
        parse_blc_text("0xzz20"),
        Err(BlcError::InvalidHexEncoding(HexFault::InvalidCharacter { c: 'z', index: 0 }))
    );
}

#[test]
fn unicode_white_space_is_skipped() {
    assert_eq!(parse_blc_text("\u{3000}λ.0\u{00A0}").unwrap(), combinators::identity());
    assert_eq!(parse_blc_text("\t(λ.0\u{2003}λ.0)\n").unwrap().to_text(), "(λ.0 λ.0)");
    assert_eq!(parse_blc_text(" 0x20 ").unwrap(), combinators::identity());
}
