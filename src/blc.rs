//! Terms of the lambda calculus and their binary encoding.
//!
//! The encoding, read most significant bit first:
//! `00` then the body is an abstraction; `01` then the function and the
//! argument is an application; `index + 1` one bits then a zero bit is a
//! variable with that de Bruijn index.

use vstd::prelude::*;
use crate::bits::{bits_of, packs, BitReader, BitWriter};
use crate::error::BlcError;

verus! {

/// A term, with variables as de Bruijn indices.
#[derive(Debug, PartialEq, Eq)]
pub enum Term {
    /// A variable, counting the abstractions between it and its binder.
    Var(usize),
    /// An abstraction over one body.
    Abs(Box<Term>),
    /// An application of a function to an argument.
    App(Box<Term>, Box<Term>),
}

impl Clone for Term {
    fn clone(&self) -> (r: Term)
        ensures
            r == *self,
        decreases self,
    {
        match self {
            Term::Var(i) => Term::Var(*i),
            Term::Abs(body) => Term::Abs(Box::new((**body).clone())),
            Term::App(f, a) => Term::App(Box::new((**f).clone()), Box::new((**a).clone())),
        }
    }
}

/// `n` one bits.
pub open spec fn ones(n: nat) -> Seq<bool> {
    Seq::new(n, |i: int| true)
}

/// The bits that encode a term.
pub open spec fn term_bits(t: Term) -> Seq<bool>
    decreases t,
{
    match t {
        Term::Var(i) => ones(i as nat + 1).push(false),
        Term::Abs(body) => seq![false, false] + term_bits(*body),
        Term::App(f, a) => seq![false, true] + term_bits(*f) + term_bits(*a),
    }
}

/// The first position at or after `pos` that holds a zero bit, or the end.
pub open spec fn run_end(bits: Seq<bool>, pos: int) -> int
    decreases bits.len() - pos,
{
    if pos < 0 || pos >= bits.len() || !bits[pos] {
        pos
    } else {
        run_end(bits, pos + 1)
    }
}

/// The term whose encoding starts at `pos`, with the position just after it;
/// `None` where the bits end first.
pub open spec fn decode_at(bits: Seq<bool>, pos: int) -> Option<(Term, int)>
    decreases bits.len() - pos,
{
    if pos < 0 || pos >= bits.len() {
        None
    } else if bits[pos] {
        let e = run_end(bits, pos + 1);
        if e >= bits.len() {
            None
        } else {
            Some((Term::Var((e - pos - 1) as usize), e + 1))
        }
    } else if pos + 1 >= bits.len() {
        None
    } else if !bits[pos + 1] {
        match decode_at(bits, pos + 2) {
            Some((body, q)) => Some((Term::Abs(Box::new(body)), q)),
            None => None,
        }
    } else {
        match decode_at(bits, pos + 2) {
            Some((f, q)) => if pos < q <= bits.len() {
                match decode_at(bits, q) {
                    Some((a, r)) => Some((Term::App(Box::new(f), Box::new(a)), r)),
                    None => None,
                }
            } else {
                None
            },
            None => None,
        }
    }
}

/// What decoding a byte buffer gives.
pub open spec fn decode_result(data: Seq<u8>) -> Result<Term, BlcError> {
    match decode_at(bits_of(data), 0) {
        Some((t, _)) => Ok(t),
        None => Err(BlcError::UnexpectedEndOfInput { position: (8 * data.len()) as usize }),
    }
}

proof fn lemma_run_end_bounds(bits: Seq<bool>, pos: int)
    requires
        0 <= pos <= bits.len(),
    ensures
        pos <= run_end(bits, pos) <= bits.len(),
        forall|k: int| pos <= k < run_end(bits, pos) ==> bits[k],
        run_end(bits, pos) < bits.len() ==> !bits[run_end(bits, pos)],
    decreases bits.len() - pos,
{
    if pos < bits.len() && bits[pos] {
        lemma_run_end_bounds(bits, pos + 1);
    }
}

proof fn lemma_run_end_of_ones(bits: Seq<bool>, pos: int, n: int)
    requires
        0 <= pos,
        0 <= n,
        pos + n < bits.len(),
        forall|k: int| pos <= k < pos + n ==> bits[k],
        !bits[pos + n],
    ensures
        run_end(bits, pos) == pos + n,
    decreases n,
{
    if n > 0 {
        lemma_run_end_of_ones(bits, pos + 1, n - 1);
    }
}

/// Decoding the bytes that encode a term gives that term back.
pub proof fn lemma_round_trip(t: Term, bytes: Seq<u8>)
    requires
        packs(bytes, term_bits(t)),
    ensures
        decode_result(bytes) == Ok::<Term, BlcError>(t),
{
    let bits = bits_of(bytes);
    let depth = (bits.len() + term_depth(t)) as nat;
    lemma_bounded_round_trip(t, bytes, depth);
    lemma_bounded_agrees(bits, 0, depth);
}

fn parse_term(reader: &mut BitReader) -> (r: Result<Term, BlcError>)
    requires
        old(reader).wf(),
        old(reader).stream().len() <= usize::MAX,
    ensures
        final(reader).wf(),
        final(reader).stream() == old(reader).stream(),
        match decode_at(old(reader).stream(), old(reader).pos()) {
            Some((t, q)) => r == Ok::<Term, BlcError>(t) && final(reader).pos() == q,
            None => r == Err::<Term, BlcError>(
                BlcError::UnexpectedEndOfInput { position: old(reader).stream().len() as usize },
            ) && final(reader).pos() == old(reader).stream().len(),
        },
{
    proof {
        lemma_bounded_agrees(reader.stream(), reader.pos(), usize::MAX as nat);
    }
    parse_term_bounded(reader, usize::MAX)
}

/// Decodes the term at the start of `data`; bits after it are ignored.
pub fn parse_blc(data: &[u8]) -> (r: Result<Term, BlcError>)
    requires
        data@.len() * 8 <= usize::MAX,
    ensures
        r == decode_result(data@),
{
    let mut reader = BitReader::new(data);
    parse_term(&mut reader)
}

fn encode_term(writer: &mut BitWriter, term: &Term)
    requires
        old(writer).wf(),
    ensures
        final(writer).wf(),
        final(writer).written() == old(writer).written() + term_bits(*term),
    decreases term,
{
    let ghost start = writer.written();
    match term {
        Term::Abs(body) => {
            writer.write_bit(false);
            writer.write_bit(false);
            encode_term(writer, body);
            assert(writer.written() =~= start + term_bits(*term));
        },
        Term::App(func, arg) => {
            writer.write_bit(false);
            writer.write_bit(true);
            encode_term(writer, func);
            encode_term(writer, arg);
            assert(writer.written() =~= start + term_bits(*term));
        },
        Term::Var(index) => {
            let mut i: usize = 0;
            loop
                invariant_except_break
                    i <= *index,
                    writer.written() == start + ones(i as nat),
                invariant
                    writer.wf(),
                ensures
                    writer.written() == start + ones(*index as nat + 1),
                decreases *index - i,
            {
                writer.write_bit(true);
                assert(start + ones(i as nat + 1) =~= (start + ones(i as nat)).push(true));
                if i == *index {
                    assert(writer.written() == start + ones(i as nat + 1));
                    break;
                }
                i = i + 1;
            }
            writer.write_bit(false);
            assert(writer.written() =~= start + term_bits(*term));
        },
    }
}

/// How deeply abstractions and applications nest in a term.
pub open spec fn term_depth(t: Term) -> nat
    decreases t,
{
    match t {
        Term::Var(_) => 0,
        Term::Abs(body) => 1 + term_depth(*body),
        Term::App(f, a) => 1 + if term_depth(*f) >= term_depth(*a) {
            term_depth(*f)
        } else {
            term_depth(*a)
        },
    }
}

/// As `decode_at`, with at most `depth` abstractions and applications
/// nested: a deeper one is refused where it starts.
pub open spec fn decode_bounded(bits: Seq<bool>, pos: int, depth: nat) -> Result<
    (Term, int),
    BlcError,
>
    decreases bits.len() - pos,
{
    let end = BlcError::UnexpectedEndOfInput { position: bits.len() as usize };
    if pos < 0 || pos >= bits.len() {
        Err(end)
    } else if bits[pos] {
        let e = run_end(bits, pos + 1);
        if e >= bits.len() {
            Err(end)
        } else {
            Ok((Term::Var((e - pos - 1) as usize), e + 1))
        }
    } else if pos + 1 >= bits.len() {
        Err(end)
    } else if depth == 0 {
        Err(BlcError::RecursionLimitExceeded { position: pos as usize })
    } else if !bits[pos + 1] {
        match decode_bounded(bits, pos + 2, (depth - 1) as nat) {
            Ok((body, q)) => Ok((Term::Abs(Box::new(body)), q)),
            Err(x) => Err(x),
        }
    } else {
        match decode_bounded(bits, pos + 2, (depth - 1) as nat) {
            Ok((f, q)) => if pos < q <= bits.len() {
                match decode_bounded(bits, q, (depth - 1) as nat) {
                    Ok((a, r)) => Ok((Term::App(Box::new(f), Box::new(a)), r)),
                    Err(x) => Err(x),
                }
            } else {
                Err(end)
            },
            Err(x) => Err(x),
        }
    }
}

/// Every term that the bounded decoder reads ends after where it started.
proof fn lemma_decode_bounded_advances(bits: Seq<bool>, pos: int, depth: nat)
    ensures
        decode_bounded(bits, pos, depth) matches Ok((_, q)) ==> pos < q <= bits.len(),
    decreases bits.len() - pos,
{
    if 0 <= pos < bits.len() {
        if bits[pos] {
            lemma_run_end_bounds(bits, pos + 1);
        } else if pos + 1 < bits.len() && depth > 0 {
            lemma_decode_bounded_advances(bits, pos + 2, (depth - 1) as nat);
            if bits[pos + 1] {
                if let Ok((_, q)) = decode_bounded(bits, pos + 2, (depth - 1) as nat) {
                    lemma_decode_bounded_advances(bits, q, (depth - 1) as nat);
                }
            }
        }
    }
}

/// With at least as many levels as bits remain, the depth bound is never
/// reached: the bounded decoder reads what `decode_at` reads.
pub proof fn lemma_bounded_agrees(bits: Seq<bool>, pos: int, depth: nat)
    requires
        0 <= pos,
        bits.len() - pos <= depth,
    ensures
        decode_bounded(bits, pos, depth) == match decode_at(bits, pos) {
            Some(x) => Ok::<(Term, int), BlcError>(x),
            None => Err(BlcError::UnexpectedEndOfInput { position: bits.len() as usize }),
        },
    decreases bits.len() - pos,
{
    if pos < bits.len() && !bits[pos] && pos + 1 < bits.len() {
        lemma_bounded_agrees(bits, pos + 2, (depth - 1) as nat);
        if bits[pos + 1] {
            if let Some((_, q)) = decode_at(bits, pos + 2) {
                if pos < q <= bits.len() {
                    lemma_bounded_agrees(bits, q, (depth - 1) as nat);
                }
            }
        }
    }
}

/// Where the encoding of `t` stands in `bits` at `pos` and `t` nests no
/// deeper than `depth`, the bounded decoder reads `t` from `pos`.
pub proof fn lemma_decode_bounded_term_bits(t: Term, bits: Seq<bool>, pos: int, depth: nat)
    requires
        0 <= pos,
        pos + term_bits(t).len() <= bits.len(),
        bits.subrange(pos, pos + term_bits(t).len()) == term_bits(t),
        term_depth(t) <= depth,
    ensures
        decode_bounded(bits, pos, depth) == Ok::<(Term, int), BlcError>(
            (t, pos + term_bits(t).len()),
        ),
    decreases t,
{
    let n = term_bits(t).len() as int;
    assert forall|k: int| 0 <= k < n implies bits[pos + k] == #[trigger] term_bits(t)[k] by {
        assert(bits.subrange(pos, pos + n)[k] == bits[pos + k]);
    }
    match t {
        Term::Var(i) => {
            assert(term_bits(t)[0]);
            assert forall|k: int| pos + 1 <= k < pos + 1 + i implies bits[k] by {
                assert(term_bits(t)[k - pos]);
            }
            assert(!term_bits(t)[i + 1]);
            lemma_run_end_of_ones(bits, pos + 1, i as int);
        },
        Term::Abs(body) => {
            let m = term_bits(*body).len() as int;
            assert(!bits[pos] && !bits[pos + 1]) by {
                assert(!term_bits(t)[0] && !term_bits(t)[1]);
            }
            assert(bits.subrange(pos + 2, pos + 2 + m) =~= term_bits(*body)) by {
                assert forall|k: int| 0 <= k < m implies bits.subrange(pos + 2, pos + 2 + m)[k]
                    == term_bits(*body)[k] by {
                    assert(term_bits(t)[k + 2] == term_bits(*body)[k]);
                }
            }
            lemma_decode_bounded_term_bits(*body, bits, pos + 2, (depth - 1) as nat);
        },
        Term::App(f, a) => {
            let mf = term_bits(*f).len() as int;
            let ma = term_bits(*a).len() as int;
            assert(!bits[pos] && bits[pos + 1]) by {
                assert(!term_bits(t)[0] && term_bits(t)[1]);
            }
            assert(bits.subrange(pos + 2, pos + 2 + mf) =~= term_bits(*f)) by {
                assert forall|k: int| 0 <= k < mf implies bits.subrange(pos + 2, pos + 2 + mf)[k]
                    == term_bits(*f)[k] by {
                    assert(term_bits(t)[k + 2] == term_bits(*f)[k]);
                }
            }
            assert(bits.subrange(pos + 2 + mf, pos + 2 + mf + ma) =~= term_bits(*a)) by {
                assert forall|k: int| 0 <= k < ma implies bits.subrange(
                    pos + 2 + mf,
                    pos + 2 + mf + ma,
                )[k] == term_bits(*a)[k] by {
                    assert(term_bits(t)[k + 2 + mf] == term_bits(*a)[k]);
                }
            }
            lemma_decode_bounded_term_bits(*f, bits, pos + 2, (depth - 1) as nat);
            lemma_decode_bounded_term_bits(*a, bits, pos + 2 + mf, (depth - 1) as nat);
        },
    }
}

/// What decoding a byte buffer with at most `max_depth` levels of nesting gives.
pub open spec fn decode_bounded_result(data: Seq<u8>, max_depth: nat) -> Result<Term, BlcError> {
    match decode_bounded(bits_of(data), 0, max_depth) {
        Ok((t, _)) => Ok(t),
        Err(x) => Err(x),
    }
}

/// Decoding the bytes that encode a term, with a depth limit the term keeps
/// within, gives the term back.
pub proof fn lemma_bounded_round_trip(t: Term, bytes: Seq<u8>, max_depth: nat)
    requires
        packs(bytes, term_bits(t)),
        term_depth(t) <= max_depth,
    ensures
        decode_bounded_result(bytes, max_depth) == Ok::<Term, BlcError>(t),
{
    let bits = bits_of(bytes);
    let n = term_bits(t).len() as int;
    assert(n <= 8 * bytes.len()) by (nonlinear_arith)
        requires bytes.len() == (n + 7) / 8, 0 <= n;
    assert(bits.subrange(0, n) =~= term_bits(t)) by {
        assert forall|k: int| 0 <= k < n implies bits.subrange(0, n)[k] == term_bits(t)[k] by {
            assert(bits[k] == (k < n && term_bits(t)[k]));
        }
    }
    lemma_decode_bounded_term_bits(t, bits, 0, max_depth);
}

fn parse_term_bounded(reader: &mut BitReader, depth: usize) -> (r: Result<Term, BlcError>)
    requires
        old(reader).wf(),
        old(reader).stream().len() <= usize::MAX,
    ensures
        final(reader).wf(),
        final(reader).stream() == old(reader).stream(),
        match decode_bounded(old(reader).stream(), old(reader).pos(), depth as nat) {
            Ok((t, q)) => r == Ok::<Term, BlcError>(t) && final(reader).pos() == q,
            Err(x) => r == Err::<Term, BlcError>(x) && (x is UnexpectedEndOfInput
                ==> final(reader).pos() == old(reader).stream().len()),
        },
    decreases old(reader).stream().len() - old(reader).pos(),
{
    let ghost bits = reader.stream();
    let ghost pos = reader.pos();
    let end_pos = reader.data.len() * 8;
    let b1 = match reader.read_bit() {
        Some(b) => b,
        None => { return Err(BlcError::UnexpectedEndOfInput { position: end_pos }); },
    };
    if !b1 {
        let b2 = match reader.read_bit() {
            Some(b) => b,
            None => { return Err(BlcError::UnexpectedEndOfInput { position: end_pos }); },
        };
        if depth == 0 {
            proof {
                assert(pos <= usize::MAX);
            }
            return Err(BlcError::RecursionLimitExceeded { position: reader.bits_read() - 2 });
        }
        if !b2 {
            let body = parse_term_bounded(reader, depth - 1)?;
            Ok(Term::Abs(Box::new(body)))
        } else {
            let func = parse_term_bounded(reader, depth - 1)?;
            proof {
                lemma_decode_bounded_advances(bits, pos + 2, (depth - 1) as nat);
            }
            let arg = parse_term_bounded(reader, depth - 1)?;
            Ok(Term::App(Box::new(func), Box::new(arg)))
        }
    } else {
        proof {
            lemma_run_end_bounds(bits, pos + 1);
        }
        let mut index: usize = 0;
        loop
            invariant_except_break
                reader.pos() == pos + 1 + index,
                reader.pos() <= run_end(bits, pos + 1),
            invariant
                reader.wf(),
                reader.stream() == bits,
                bits == old(reader).stream(),
                pos == old(reader).pos(),
                0 <= pos < bits.len(),
                bits[pos],
                bits.len() <= usize::MAX,
                pos + 1 <= run_end(bits, pos + 1) <= bits.len(),
                forall|k: int| pos + 1 <= k < run_end(bits, pos + 1) ==> bits[k],
                run_end(bits, pos + 1) < bits.len() ==> !bits[run_end(bits, pos + 1)],
                end_pos == bits.len(),
            ensures
                run_end(bits, pos + 1) < bits.len(),
                reader.pos() == run_end(bits, pos + 1) + 1,
                index == run_end(bits, pos + 1) - pos - 1,
            decreases bits.len() - reader.pos(),
        {
            match reader.read_bit() {
                Some(true) => { index = index + 1; },
                Some(false) => { break; },
                None => { return Err(BlcError::UnexpectedEndOfInput { position: end_pos }); },
            }
        }
        Ok(Term::Var(index))
    }
}

/// Decodes the term at the start of `data`, refusing one whose
/// abstractions and applications nest more than `max_depth` deep; bits
/// after the term are ignored.
pub fn parse_blc_bounded(data: &[u8], max_depth: usize) -> (r: Result<Term, BlcError>)
    requires
        data@.len() * 8 <= usize::MAX,
    ensures
        r == decode_bounded_result(data@, max_depth as nat),
{
    let mut reader = BitReader::new(data);
    parse_term_bounded(&mut reader, max_depth)
}

/// Encodes a term, padding the last byte with zero bits.
pub fn encode_blc(term: &Term) -> (r: Vec<u8>)
    ensures
        packs(r@, term_bits(*term)),
{
    let mut writer = BitWriter::new();
    encode_term(&mut writer, term);
    assert(writer.written() =~= term_bits(*term));
    writer.finish()
}

/// The decimal digits of `n`.
pub open spec fn decimal(n: nat) -> Seq<char>
    decreases n,
{
    if n < 10 {
        seq![((48 + n) as u8) as char]
    } else {
        decimal(n / 10).push(((48 + n % 10) as u8) as char)
    }
}

/// A term as text: a variable as its index, an abstraction as `λ.` and its
/// body, an application as `(f a)`.
pub open spec fn term_text(t: Term) -> Seq<char>
    decreases t,
{
    match t {
        Term::Var(i) => decimal(i as nat),
        Term::Abs(body) => seq!['λ', '.'] + term_text(*body),
        Term::App(f, a) => seq!['('] + term_text(*f) + seq![' '] + term_text(*a) + seq![')'],
    }
}

/// Relies on `String`'s `FromIterator<char>`: the characters in order.
#[verifier::external_body]
pub(crate) fn string_from_chars(cs: &Vec<char>) -> (r: String)
    ensures
        r@ == cs@,
{
    cs.iter().collect()
}

fn push_decimal(out: &mut Vec<char>, n: usize)
    ensures
        final(out)@ == old(out)@ + decimal(n as nat),
    decreases n,
{
    if n >= 10 {
        push_decimal(out, n / 10);
    }
    out.push(((48 + n % 10) as u8) as char);
    assert(out@ =~= old(out)@ + decimal(n as nat));
}

fn push_term_text(out: &mut Vec<char>, t: &Term)
    ensures
        final(out)@ == old(out)@ + term_text(*t),
    decreases t,
{
    match t {
        Term::Var(i) => push_decimal(out, *i),
        Term::Abs(body) => {
            out.push('λ');
            out.push('.');
            push_term_text(out, body);
        },
        Term::App(f, a) => {
            out.push('(');
            push_term_text(out, f);
            out.push(' ');
            push_term_text(out, a);
            out.push(')');
        },
    }
    assert(out@ =~= old(out)@ + term_text(*t));
}

impl Term {
    /// The term as text, in the lambda notation that `parse_blc_text` reads.
    pub fn to_text(&self) -> (r: String)
        ensures
            r@ == term_text(*self),
    {
        let mut out: Vec<char> = Vec::new();
        push_term_text(&mut out, self);
        assert(out@ =~= term_text(*self));
        string_from_chars(&out)
    }
}

} // verus!
