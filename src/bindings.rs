//! Text-in, text-out helpers over the library: terms and payloads as
//! hexadecimal, packages as base64.

use vstd::prelude::*;
use base64::Engine;
use crate::blc::{decode_result, encode_blc, parse_blc, term_bits, term_text, Term};
use crate::bits::packs;
use crate::bytes::lemma_le_bytes_len;
use crate::combinators::{
    church_false, church_true, false_term, identity, identity_term, s_combinator, s_term, true_term,
};
use crate::error::BlcError;
use crate::hexcodec::{
    hex_decode, hex_decoded, hex_encode, hex_fault_of, hex_text, hex_valid, is_ascii_text,
};
use crate::jam::{
    compact_bytes, compact_decode, decode_jam_compact, encode_jam_compact, lemma_single_arg_env,
    single_arg_env_bytes, CorevmExecEnv, WorkItem,
};
use crate::text::{hex_digits_of, parse_blc_text, text_parse};
use crate::work_package::{
    blake2b_256, blake2b_256_of, bootstrap_package_bytes, code_hash_from_slice,
    lemma_built_package_bytes, BlcWorkPackageBuilder,
};

verus! {

/// The character of the standard base64 alphabet for `v` (below 64).
pub open spec fn base64_char(v: int) -> char {
    if v < 26 {
        ((65 + v) as u8) as char
    } else if v < 52 {
        ((71 + v) as u8) as char
    } else if v < 62 {
        ((v - 4) as u8) as char
    } else if v == 62 {
        '+'
    } else {
        '/'
    }
}

/// The standard base64 text of `b`: each three bytes become four
/// characters of six bits each, and a last group of one or two bytes is
/// padded with `=` to four characters.
pub open spec fn base64_of(b: Seq<u8>) -> Seq<char>
    decreases b.len(),
{
    if b.len() == 0 {
        Seq::empty()
    } else if b.len() == 1 {
        let x = b[0] as int;
        seq![base64_char(x / 4), base64_char((x % 4) * 16), '=', '=']
    } else if b.len() == 2 {
        let x = b[0] as int;
        let y = b[1] as int;
        seq![base64_char(x / 4), base64_char((x % 4) * 16 + y / 16), base64_char((y % 16) * 4), '=']
    } else {
        let x = b[0] as int;
        let y = b[1] as int;
        let z = b[2] as int;
        seq![
            base64_char(x / 4),
            base64_char((x % 4) * 16 + y / 16),
            base64_char((y % 16) * 4 + z / 64),
            base64_char(z % 64),
        ] + base64_of(b.subrange(3, b.len() as int))
    }
}

/// Relies on base64's `STANDARD.encode`: padded standard base64. It panics
/// when the output length overflows, which `requires` leaves out.
#[verifier::external_body]
fn base64_encode(b: &[u8]) -> (r: String)
    requires
        b@.len() <= usize::MAX / 2,
    ensures
        r@ == base64_of(b@),
{
    base64::engine::general_purpose::STANDARD.encode(b)
}

/// `s` without a leading `0x`.
fn strip_hex_prefix(s: &str) -> (r: &str)
    ensures
        r@ == hex_digits_of(s@),
{
    let n = s.unicode_len();
    if n >= 2 && s.get_char(0) == '0' && s.get_char(1) == 'x' {
        s.substring_char(2, n)
    } else {
        s.substring_char(0, n)
    }
}

/// Hexadecimal text (optionally prefixed `0x`) as bytes.
fn decode_hex_text(s: &str) -> (r: Result<Vec<u8>, BlcError>)
    ensures
        r is Ok <==> hex_valid(hex_digits_of(s@)),
        r matches Ok(v) ==> v@ == hex_decoded(hex_digits_of(s@)),
        r matches Err(e) ==> e is InvalidHexEncoding,
        is_ascii_text(hex_digits_of(s@)) && !hex_valid(hex_digits_of(s@)) ==> r == Err::<
            Vec<u8>,
            BlcError,
        >(BlcError::InvalidHexEncoding(hex_fault_of(hex_digits_of(s@)))),
{
    match hex_decode(strip_hex_prefix(s)) {
        Ok(v) => Ok(v),
        Err(f) => Err(BlcError::InvalidHexEncoding(f)),
    }
}

/// Decodes a term from hexadecimal (optionally prefixed `0x`) and gives it
/// as text.
pub fn parse_blc_hex(hex: &str) -> (r: Result<String, BlcError>)
    requires
        hex@.len() <= usize::MAX / 4,
    ensures
        !hex_valid(hex_digits_of(hex@)) ==> r matches Err(BlcError::InvalidHexEncoding(_)),
        is_ascii_text(hex_digits_of(hex@)) && !hex_valid(hex_digits_of(hex@)) ==> r == Err::<
            String,
            BlcError,
        >(BlcError::InvalidHexEncoding(hex_fault_of(hex_digits_of(hex@)))),
        hex_valid(hex_digits_of(hex@)) ==> match decode_result(hex_decoded(hex_digits_of(hex@))) {
            Ok(t) => r matches Ok(s) && s@ == term_text(t),
            Err(e) => r == Err::<String, BlcError>(e),
        },
{
    let bytes = decode_hex_text(hex)?;
    let term = parse_blc(bytes.as_slice())?;
    Ok(term.to_text())
}

/// Parses a term from text, as `parse_blc_text` does, and gives it back as
/// text in lambda notation.
pub fn parse_blc_lambda(text: &str) -> (r: Result<String, BlcError>)
    requires
        text@.len() <= usize::MAX / 4,
    ensures
        match text_parse(text@) {
            Some(Ok(t)) => r matches Ok(s) && s@ == term_text(t),
            Some(Err(e)) => r == Err::<String, BlcError>(e),
            None => r matches Err(BlcError::InvalidHexEncoding(_)),
        },
{
    let term = parse_blc_text(text)?;
    Ok(term.to_text())
}

/// Parses a term from text and gives its binary encoding in hexadecimal.
pub fn encode_to_hex(text: &str) -> (r: Result<String, BlcError>)
    requires
        text@.len() <= usize::MAX / 4,
    ensures
        match text_parse(text@) {
            Some(Ok(t)) => r matches Ok(s) && exists|b: Seq<u8>|
                packs(b, term_bits(t)) && s@ == hex_text(b),
            Some(Err(e)) => r == Err::<String, BlcError>(e),
            None => r matches Err(BlcError::InvalidHexEncoding(_)),
        },
{
    let term = parse_blc_text(text)?;
    let bytes = encode_blc(&term);
    Ok(hex_encode(bytes.as_slice()))
}

/// The hexadecimal encoding of a named term.
fn term_hex(t: &Term) -> (r: String)
    ensures
        exists|b: Seq<u8>| packs(b, term_bits(*t)) && r@ == hex_text(b),
{
    let bytes = encode_blc(t);
    hex_encode(bytes.as_slice())
}

/// The encoding of the identity term, in hexadecimal.
pub fn identity_hex() -> (r: String)
    ensures
        exists|b: Seq<u8>| packs(b, term_bits(identity_term())) && r@ == hex_text(b),
{
    term_hex(&identity())
}

/// The encoding of Church true, in hexadecimal.
pub fn church_true_hex() -> (r: String)
    ensures
        exists|b: Seq<u8>| packs(b, term_bits(true_term())) && r@ == hex_text(b),
{
    term_hex(&church_true())
}

/// The encoding of Church false, in hexadecimal.
pub fn church_false_hex() -> (r: String)
    ensures
        exists|b: Seq<u8>| packs(b, term_bits(false_term())) && r@ == hex_text(b),
{
    term_hex(&church_false())
}

/// The encoding of the S combinator, in hexadecimal.
pub fn s_combinator_hex() -> (r: String)
    ensures
        exists|b: Seq<u8>| packs(b, term_bits(s_term())) && r@ == hex_text(b),
{
    term_hex(&s_combinator())
}

/// A hexadecimal code reference (no `0x` prefix), as 32 bytes.
fn code_hash_from_hex(code_hash_hex: &str) -> (r: Result<[u8; 32], BlcError>)
    ensures
        !hex_valid(code_hash_hex@) ==> r matches Err(BlcError::InvalidHexEncoding(_)),
        hex_valid(code_hash_hex@) && hex_decoded(code_hash_hex@).len() != 32 ==> r == Err::<
            [u8; 32],
            BlcError,
        >(
            BlcError::InvalidCodeReferenceLength {
                length: hex_decoded(code_hash_hex@).len() as usize,
            },
        ),
        hex_valid(code_hash_hex@) && hex_decoded(code_hash_hex@).len() == 32 ==> (r matches Ok(h)
            && h@ == hex_decoded(code_hash_hex@)),
{
    let bytes = match hex_decode(code_hash_hex) {
        Ok(v) => v,
        Err(f) => {
            return Err(BlcError::InvalidHexEncoding(f));
        },
    };
    code_hash_from_slice(bytes.as_slice())
}

/// The payload that runs the program `blc_program_hex` (passed on as
/// text) with the code `code_hash_hex` (64 hexadecimal digits, no prefix)
/// of `service_id`, in hexadecimal.
pub fn build_blc_payload(service_id: u32, code_hash_hex: &str, blc_program_hex: &str) -> (r:
    Result<String, BlcError>)
    ensures
        !hex_valid(code_hash_hex@) ==> r matches Err(BlcError::InvalidHexEncoding(_)),
        hex_valid(code_hash_hex@) && hex_decoded(code_hash_hex@).len() != 32 ==> r == Err::<
            String,
            BlcError,
        >(
            BlcError::InvalidCodeReferenceLength {
                length: hex_decoded(code_hash_hex@).len() as usize,
            },
        ),
        hex_valid(code_hash_hex@) && hex_decoded(code_hash_hex@).len() == 32 ==> (r matches Ok(s)
            && s@ == hex_text(
            single_arg_env_bytes(service_id, hex_decoded(code_hash_hex@), blc_program_hex@),
        )),
{
    let code_hash = code_hash_from_hex(code_hash_hex)?;
    let env = CorevmExecEnv::new(service_id, code_hash).arg(blc_program_hex);
    let payload = env.encode();
    proof {
        lemma_single_arg_env(env, blc_program_hex@);
    }
    Ok(hex_encode(payload.as_slice()))
}

/// The compact encoding of `value`, in hexadecimal.
pub fn encode_compact(value: u64) -> (r: String)
    ensures
        r@ == hex_text(compact_bytes(value)),
{
    let bytes = encode_jam_compact(value);
    hex_encode(bytes.as_slice())
}

/// The value of the compact integer at the start of hexadecimal text (no
/// `0x` prefix).
pub fn decode_compact(hex_data: &str) -> (r: Result<u64, BlcError>)
    ensures
        !hex_valid(hex_data@) ==> r matches Err(BlcError::InvalidHexEncoding(_)),
        hex_valid(hex_data@) ==> match compact_decode(hex_decoded(hex_data@)) {
            Ok((v, _)) => r == Ok::<u64, BlcError>(v),
            Err(e) => r == Err::<u64, BlcError>(e),
        },
{
    let bytes = match hex_decode(hex_data) {
        Ok(v) => v,
        Err(f) => {
            return Err(BlcError::InvalidHexEncoding(f));
        },
    };
    let (value, _) = decode_jam_compact(bytes.as_slice())?;
    Ok(value)
}

/// The Blake2b-256 digest of `data`.
pub fn blake2b_hash(data: &[u8]) -> (r: Vec<u8>)
    ensures
        r@ == blake2b_256_of(data@),
{
    let digest = blake2b_256(data);
    let mut out: Vec<u8> = Vec::new();
    crate::bytes::append_bytes(&mut out, digest.as_slice());
    out
}

/// The Blake2b-256 digest of hexadecimal data (optionally prefixed `0x`),
/// in hexadecimal.
pub fn blake2b_hash_hex(hex_data: &str) -> (r: Result<String, BlcError>)
    ensures
        !hex_valid(hex_digits_of(hex_data@)) ==> r matches Err(BlcError::InvalidHexEncoding(_)),
        hex_valid(hex_digits_of(hex_data@)) ==> (r matches Ok(s) && s@ == hex_text(
            blake2b_256_of(hex_decoded(hex_digits_of(hex_data@))),
        )),
{
    let data = decode_hex_text(hex_data)?;
    let digest = blake2b_256(data.as_slice());
    Ok(hex_encode(digest.as_slice()))
}

/// A built package and its identifier.
pub struct PackageWithHash {
    /// The package's encoding, in base64.
    pub package: String,
    /// The digest of that encoding, in hexadecimal.
    pub hash: String,
}

/// Whether hexadecimal inputs for a package are refused: either is not
/// valid hexadecimal, or the code reference is not 32 bytes.
pub open spec fn package_inputs_fault(code_hash_hex: Seq<char>, payload_hex: Seq<char>) -> bool {
    let ch = hex_digits_of(code_hash_hex);
    !hex_valid(ch) || hex_decoded(ch).len() != 32 || !hex_valid(hex_digits_of(payload_hex))
}

/// `e` is the error for refused package inputs: a hexadecimal error for an
/// invalid code reference, else the code reference's length if it is not
/// 32 bytes, else a hexadecimal error for the program.
pub open spec fn package_inputs_error(
    code_hash_hex: Seq<char>,
    payload_hex: Seq<char>,
    e: BlcError,
) -> bool {
    let ch = hex_digits_of(code_hash_hex);
    if !hex_valid(ch) {
        e is InvalidHexEncoding
    } else if hex_decoded(ch).len() != 32 {
        e == BlcError::InvalidCodeReferenceLength { length: hex_decoded(ch).len() as usize }
    } else {
        e is InvalidHexEncoding
    }
}

/// The encoding of the package that runs the program in `payload_hex` with
/// the code `code_hash_hex` of `service_id` and `gas`.
pub open spec fn package_of(
    service_id: u32,
    code_hash_hex: Seq<char>,
    payload_hex: Seq<char>,
    gas: u64,
) -> Seq<u8> {
    bootstrap_package_bytes(
        service_id,
        hex_decoded(hex_digits_of(code_hash_hex)),
        gas,
        hex_decoded(hex_digits_of(payload_hex)),
    )
}

/// Decodes the inputs, builds the package and encodes it.
fn build_package_bytes(
    service_id: u32,
    code_hash_hex: &str,
    blc_payload_hex: &str,
    gas: u64,
) -> (r: Result<(Vec<u8>, Vec<u8>), BlcError>)
    ensures
        r is Ok <==> !package_inputs_fault(code_hash_hex@, blc_payload_hex@),
        r matches Ok((pkg, payload)) ==> pkg@ == package_of(
            service_id,
            code_hash_hex@,
            blc_payload_hex@,
            gas,
        ) && payload@ == hex_decoded(hex_digits_of(blc_payload_hex@)),
        r matches Err(e) ==> package_inputs_error(code_hash_hex@, blc_payload_hex@, e),
{
    let code_bytes = decode_hex_text(code_hash_hex)?;
    let code_hash = code_hash_from_slice(code_bytes.as_slice())?;
    let payload = decode_hex_text(blc_payload_hex)?;
    let builder = BlcWorkPackageBuilder::new(service_id, code_hash).gas(gas);
    let pkg = builder.build(payload.as_slice());
    proof {
        lemma_built_package_bytes(builder, payload@, pkg);
    }
    Ok((pkg.encode(), payload))
}

proof fn lemma_compact_len(v: u64)
    ensures
        1 <= compact_bytes(v).len() <= 9,
{
    lemma_le_bytes_len((v * 4 + 1) as nat, 2);
    lemma_le_bytes_len((v * 4 + 2) as nat, 4);
    lemma_le_bytes_len(v as nat, 8);
}

proof fn lemma_bootstrap_len(service_id: u32, code_hash: Seq<u8>, gas: u64, program: Seq<u8>)
    requires
        code_hash.len() == 32,
    ensures
        bootstrap_package_bytes(service_id, code_hash, gas, program).len() <= program.len() + 300,
{
    lemma_le_bytes_len(0, 4);
    lemma_le_bytes_len(0, 2);
    lemma_le_bytes_len(service_id as nat, 4);
    lemma_le_bytes_len(gas as nat, 8);
    lemma_compact_len(0);
    lemma_compact_len(1);
    lemma_compact_len(program.len() as u64);
}

/// Builds the single-item package that runs the program in
/// `blc_payload_hex` with the code `code_hash_hex` of `service_id` and
/// `gas`, and gives its encoding in base64. Both texts are hexadecimal,
/// optionally prefixed `0x`; the code reference must be 32 bytes.
pub fn build_work_package(
    service_id: u32,
    code_hash_hex: &str,
    blc_payload_hex: &str,
    gas: u64,
) -> (r: Result<String, BlcError>)
    requires
        blc_payload_hex@.len() <= usize::MAX / 4,
    ensures
        r is Ok <==> !package_inputs_fault(code_hash_hex@, blc_payload_hex@),
        r matches Ok(s) ==> s@ == base64_of(
            package_of(service_id, code_hash_hex@, blc_payload_hex@, gas),
        ),
        r matches Err(e) ==> package_inputs_error(code_hash_hex@, blc_payload_hex@, e),
{
    let (pkg, payload) = build_package_bytes(service_id, code_hash_hex, blc_payload_hex, gas)?;
    proof {
        lemma_bootstrap_len(service_id, hex_decoded(hex_digits_of(code_hash_hex@)), gas, payload@);
    }
    Ok(base64_encode(pkg.as_slice()))
}

/// As `build_work_package`, with the package's identifier beside it.
pub fn build_work_package_with_hash(
    service_id: u32,
    code_hash_hex: &str,
    blc_payload_hex: &str,
    gas: u64,
) -> (r: Result<PackageWithHash, BlcError>)
    requires
        blc_payload_hex@.len() <= usize::MAX / 4,
    ensures
        r is Ok <==> !package_inputs_fault(code_hash_hex@, blc_payload_hex@),
        r matches Ok(p) ==> {
            let bytes = package_of(service_id, code_hash_hex@, blc_payload_hex@, gas);
            p.package@ == base64_of(bytes) && p.hash@ == hex_text(blake2b_256_of(bytes))
        },
        r matches Err(e) ==> package_inputs_error(code_hash_hex@, blc_payload_hex@, e),
{
    let (pkg, payload) = build_package_bytes(service_id, code_hash_hex, blc_payload_hex, gas)?;
    proof {
        lemma_bootstrap_len(service_id, hex_decoded(hex_digits_of(code_hash_hex@)), gas, payload@);
    }
    let digest = blake2b_256(pkg.as_slice());
    let package = base64_encode(pkg.as_slice());
    let hash = hex_encode(digest.as_slice());
    Ok(PackageWithHash { package, hash })
}

/// The parameters of a request that submits a package: the core to run it
/// on, the package's encoding in base64, and its extrinsic data (the
/// program) in base64.
pub struct SubmitWorkPackage {
    pub request_id: u64,
    pub core_index: u32,
    pub package: String,
    pub extrinsics: Vec<String>,
}

/// The parameters of the request that submits, as request `request_id`
/// for core `core_index`, the package that `build_work_package` builds.
pub fn build_submit_work_package_rpc(
    request_id: u64,
    core_index: u32,
    service_id: u32,
    code_hash_hex: &str,
    blc_payload_hex: &str,
    gas: u64,
) -> (r: Result<SubmitWorkPackage, BlcError>)
    requires
        blc_payload_hex@.len() <= usize::MAX / 4,
    ensures
        r is Ok <==> !package_inputs_fault(code_hash_hex@, blc_payload_hex@),
        r matches Ok(p) ==> {
            &&& p.request_id == request_id
            &&& p.core_index == core_index
            &&& p.package@ == base64_of(
                package_of(service_id, code_hash_hex@, blc_payload_hex@, gas),
            )
            &&& p.extrinsics@.len() == 1
            &&& p.extrinsics@[0]@ == base64_of(hex_decoded(hex_digits_of(blc_payload_hex@)))
        },
        r matches Err(e) ==> package_inputs_error(code_hash_hex@, blc_payload_hex@, e),
{
    let (pkg, payload) = build_package_bytes(service_id, code_hash_hex, blc_payload_hex, gas)?;
    proof {
        lemma_bootstrap_len(service_id, hex_decoded(hex_digits_of(code_hash_hex@)), gas, payload@);
    }
    let package = base64_encode(pkg.as_slice());
    let extrinsic = base64_encode(payload.as_slice());
    Ok(SubmitWorkPackage { request_id, core_index, package, extrinsics: vec![extrinsic] })
}

/// A client for one service and code: it numbers the requests it builds.
pub struct BlcClient {
    pub service_id: u32,
    pub code_hash: [u8; 32],
    pub rpc_url: String,
    pub next_id: u64,
}

impl BlcClient {
    /// A client for the code `code_hash_hex` (64 hexadecimal digits, no
    /// prefix) of `service_id` at `rpc_url`; its first request id is 1.
    pub fn new(rpc_url: &str, service_id: u32, code_hash_hex: &str) -> (r: Result<
        BlcClient,
        BlcError,
    >)
        ensures
            !hex_valid(code_hash_hex@) ==> r matches Err(BlcError::InvalidHexEncoding(_)),
            hex_valid(code_hash_hex@) && hex_decoded(code_hash_hex@).len() != 32 ==> r == Err::<
                BlcClient,
                BlcError,
            >(
                BlcError::InvalidCodeReferenceLength {
                    length: hex_decoded(code_hash_hex@).len() as usize,
                },
            ),
            hex_valid(code_hash_hex@) && hex_decoded(code_hash_hex@).len() == 32 ==> (r matches Ok(
                c,
            ) && c.service_id == service_id && c.code_hash@ == hex_decoded(code_hash_hex@)
                && c.rpc_url@ == rpc_url@ && c.next_id == 1),
    {
        let code_hash = code_hash_from_hex(code_hash_hex)?;
        Ok(BlcClient { service_id, code_hash, rpc_url: rpc_url.to_owned(), next_id: 1 })
    }

    pub fn service_id(&self) -> (r: u32)
        ensures
            r == self.service_id,
    {
        self.service_id
    }

    pub fn rpc_url(&self) -> (r: String)
        ensures
            r@ == self.rpc_url@,
    {
        self.rpc_url.clone()
    }

    /// The next request id and the work item that runs `blc_program_hex`
    /// (passed on as text) with `gas` for both phases.
    pub fn build_work_item(&mut self, blc_program_hex: &str, gas: u64) -> (r: (u64, WorkItem))
        requires
            old(self).next_id < u64::MAX,
        ensures
            r.0 == old(self).next_id,
            final(self).next_id == old(self).next_id + 1,
            final(self).service_id == old(self).service_id,
            final(self).code_hash == old(self).code_hash,
            final(self).rpc_url == old(self).rpc_url,
            r.1.service_id == old(self).service_id,
            r.1.payload@ == single_arg_env_bytes(
                old(self).service_id,
                old(self).code_hash@,
                blc_program_hex@,
            ),
            r.1.refine_gas == gas,
            r.1.accumulate_gas == gas,
    {
        let env = CorevmExecEnv::new(self.service_id, self.code_hash).arg(blc_program_hex);
        let payload = env.encode();
        proof {
            lemma_single_arg_env(env, blc_program_hex@);
        }
        let item = WorkItem {
            service_id: self.service_id,
            payload,
            refine_gas: gas,
            accumulate_gas: gas,
        };
        let id = self.next_id;
        self.next_id = self.next_id + 1;
        (id, item)
    }

    /// Parses a term from text and gives its binary encoding in hexadecimal.
    pub fn encode_blc(&self, text: &str) -> (r: Result<String, BlcError>)
        requires
            text@.len() <= usize::MAX / 4,
        ensures
            match text_parse(text@) {
                Some(Ok(t)) => r matches Ok(s) && exists|b: Seq<u8>|
                    packs(b, term_bits(t)) && s@ == hex_text(b),
                Some(Err(e)) => r == Err::<String, BlcError>(e),
                None => r matches Err(BlcError::InvalidHexEncoding(_)),
            },
    {
        encode_to_hex(text)
    }
}

} // verus!
