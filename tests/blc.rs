use blc_client::bits::{BitReader, BitWriter};
use blc_client::blc::{encode_blc, parse_blc, parse_blc_bounded, Term};
use blc_client::combinators;
use blc_client::error::BlcError;

fn abs(t: Term) -> Term {
    Term::Abs(Box::new(t))
}

fn app(f: Term, a: Term) -> Term {
    Term::App(Box::new(f), Box::new(a))
}

#[test]
fn test_identity() {
    let id = combinators::identity();
    let encoded = encode_blc(&id);
    assert_eq!(encoded, vec![0x20]);

    let decoded = parse_blc(&encoded).unwrap();
    assert_eq!(decoded, id);
}

#[test]
fn test_church_true() {
    let t = combinators::church_true();
    let encoded = encode_blc(&t);
    assert_eq!(encoded, vec![0x0C]);
}

#[test]
fn test_church_false() {
    let f = combinators::church_false();
    let encoded = encode_blc(&f);
    assert_eq!(encoded, vec![0x08]);
}

#[test]
fn test_application() {
    let app = Term::App(
        Box::new(combinators::identity()),
        Box::new(combinators::identity()),
    );
    let encoded = encode_blc(&app);
    assert_eq!(encoded, vec![0x48, 0x80]);
}

#[test]
fn named_terms_round_trip() {
    let terms = vec![
        combinators::identity(),
        combinators::church_true(),
        combinators::church_false(),
        combinators::church_zero(),
        combinators::church_one(),
        combinators::s_combinator(),
        combinators::k_combinator(),
        combinators::i_combinator(),
    ];
    for t in terms {
        assert_eq!(parse_blc(&encode_blc(&t)).unwrap(), t);
    }
}

#[test]
fn open_terms_and_large_indices_round_trip() {
    let terms = vec![
        Term::Var(0),
        Term::Var(7),
        Term::Var(8),
        Term::Var(300),
        app(Term::Var(5), abs(Term::Var(42))),
        abs(app(app(Term::Var(3), Term::Var(0)), abs(Term::Var(9)))),
    ];
    for t in terms {
        assert_eq!(parse_blc(&encode_blc(&t)).unwrap(), t);
    }
}

#[test]
fn deep_term_round_trips() {
    let mut t = Term::Var(1);
    for i in 0..200 {
        t = if i % 3 == 0 { app(t, Term::Var(i % 5)) } else { abs(t) };
    }
    assert_eq!(parse_blc(&encode_blc(&t)).unwrap(), t);
}

#[test]
fn encoding_length_is_bits_rounded_up() {
    // Var(7): eight one bits and a zero bit make nine bits, two bytes.
    assert_eq!(encode_blc(&Term::Var(7)), vec![0xFF, 0x00]);
    // Var(6): seven ones and a zero fill one byte exactly.
    assert_eq!(encode_blc(&Term::Var(6)), vec![0xFE]);
    assert_eq!(encode_blc(&Term::Var(0)), vec![0x80]);
}

#[test]
fn s_combinator_encoding() {
    // 000000 01 01 1110 10 01 110 10, then one padding bit
    assert_eq!(
        encode_blc(&combinators::s_combinator()),
        vec![0x01, 0x7A, 0x74]
    );
}

#[test]
fn trailing_bits_are_ignored() {
    assert_eq!(parse_blc(&[0x20, 0xFF]).unwrap(), combinators::identity());
}

#[test]
fn empty_input_is_unexpected_end() {
    assert_eq!(
        parse_blc(&[]),
        Err(BlcError::UnexpectedEndOfInput { position: 0 })
    );
}

#[test]
fn short_input_is_unexpected_end() {
    assert_eq!(
        parse_blc(&[0x04]),
        Err(BlcError::UnexpectedEndOfInput { position: 8 })
    );
    // a variable whose terminating zero never comes
    assert_eq!(
        parse_blc(&[0xFF]),
        Err(BlcError::UnexpectedEndOfInput { position: 8 })
    );
}

#[test]
fn writer_pads_to_whole_bytes() {
    for n in 0..40usize {
        let bits: Vec<bool> = (0..n).map(|i| (i * 7 + 3) % 5 < 2).collect();
        let mut w = BitWriter::new();
        for b in &bits {
            w.write_bit(*b);
        }
        let out = w.finish();
        assert_eq!(out.len(), (n + 7) / 8);
        let mut r = BitReader::new(&out);
        for b in &bits {
            assert_eq!(r.read_bit(), Some(*b));
        }
        while let Some(b) = r.read_bit() {
            assert!(!b);
        }
        assert_eq!(r.bits_read(), out.len() * 8);
    }
}

#[test]
fn writer_keeps_explicit_trailing_zeros() {
    let mut w = BitWriter::new();
    for _ in 0..8 {
        w.write_bit(false);
    }
    assert_eq!(w.finish(), vec![0x00]);
    let w = BitWriter::new();
    assert_eq!(w.finish(), Vec::<u8>::new());
}

#[test]
fn reader_counts_bits() {
    let data = [0xA5u8];
    let mut r = BitReader::new(&data);
    let expected = [true, false, true, false, false, true, false, true];
    for (i, b) in expected.iter().enumerate() {
        assert_eq!(r.bits_read(), i);
        assert_eq!(r.read_bit(), Some(*b));
    }
    assert_eq!(r.read_bit(), None);
    assert_eq!(r.bits_read(), 8);
}

#[test]
fn term_text_forms() {
    assert_eq!(combinators::identity().to_text(), "λ.0");
    assert_eq!(
        combinators::s_combinator().to_text(),
        "λ.λ.λ.((2 0) (1 0))"
    );
    assert_eq!(Term::Var(1234).to_text(), "1234");
    assert_eq!(combinators::church_one().to_text(), "λ.λ.(1 0)");
}

#[test]
fn clone_is_equal() {
    let t = combinators::s_combinator();
    assert_eq!(t.clone(), t);
}

#[test]
fn bits_as_text() {
    assert_eq!(blc_client::bits::format_bits(&[0x48, 0x80]), "01001000 10000000");
    assert_eq!(blc_client::bits::format_bits(&[0x01]), "00000001");
    assert_eq!(blc_client::bits::format_bits(&[]), "");
}

#[test]
fn bounded_decoder_accepts_terms_within_the_limit() {
    let s = combinators::s_combinator();
    let bytes = encode_blc(&s);
    assert_eq!(parse_blc_bounded(&bytes, 5).unwrap(), s);
    assert_eq!(parse_blc_bounded(&bytes, 100).unwrap(), s);
    assert_eq!(parse_blc_bounded(&[0xFE], 0).unwrap(), Term::Var(6));
}

#[test]
fn bounded_decoder_refuses_deeper_terms() {
    let bytes = encode_blc(&combinators::s_combinator());
    assert_eq!(
        parse_blc_bounded(&bytes, 4),
        Err(BlcError::RecursionLimitExceeded { position: 8 })
    );
    assert_eq!(
        parse_blc_bounded(&[0x20], 0),
        Err(BlcError::RecursionLimitExceeded { position: 0 })
    );
    // a long run of abstractions
    let deep = vec![0u8; 4096];
    assert_eq!(
        parse_blc_bounded(&deep, 1000),
        Err(BlcError::RecursionLimitExceeded { position: 2000 })
    );
    assert_eq!(
        parse_blc_bounded(&[], 3),
        Err(BlcError::UnexpectedEndOfInput { position: 0 })
    );
}
