//! Compact integers, the execution-environment payload, and the plain
//! records that travel to and from a service.

use vstd::prelude::*;
use vstd::utf8::encode_utf8;
use crate::bytes::{append_bytes, le_bytes, le_value, lemma_le_round_trip, pow256, push_le, read_le};
use crate::error::BlcError;
use crate::hexcodec::{hex_encode, hex_text};

verus! {

/// The compact encoding of `v`: one, two or four little-endian bytes of
/// `v * 4` plus the mode in the low two bits, or the mode byte `3`
/// followed by the eight little-endian bytes of `v`.
pub open spec fn compact_bytes(v: u64) -> Seq<u8> {
    if v < 64 {
        seq![(v * 4) as u8]
    } else if v < 16384 {
        le_bytes((v * 4 + 1) as nat, 2)
    } else if v < 0x4000_0000 {
        le_bytes((v * 4 + 2) as nat, 4)
    } else {
        seq![3u8] + le_bytes(v as nat, 8)
    }
}

/// How many bytes a compact integer whose first byte is `b` takes.
pub open spec fn compact_len(b: u8) -> nat {
    if b % 4 == 0 {
        1
    } else if b % 4 == 1 {
        2
    } else if b % 4 == 2 {
        4
    } else {
        9
    }
}

/// What decoding a compact integer at the start of `data` gives: the value
/// and the number of bytes it took.
pub open spec fn compact_decode(data: Seq<u8>) -> Result<(u64, usize), BlcError> {
    if data.len() == 0 {
        Err(BlcError::InsufficientBytesForCompactInteger { needed: 1, available: 0 })
    } else if data.len() < compact_len(data[0]) {
        Err(
            BlcError::InsufficientBytesForCompactInteger {
                needed: compact_len(data[0]) as usize,
                available: data.len() as usize,
            },
        )
    } else if data[0] % 4 == 3 {
        Ok((le_value(data.subrange(1, 9)) as u64, 9usize))
    } else {
        Ok(
            (
                (le_value(data.subrange(0, compact_len(data[0]) as int)) / 4) as u64,
                compact_len(data[0]) as usize,
            ),
        )
    }
}

/// Encodes `value` as a compact integer in the shortest of its four forms.
pub fn encode_jam_compact(value: u64) -> (r: Vec<u8>)
    ensures
        r@ == compact_bytes(value),
{
    let mut buf: Vec<u8> = Vec::new();
    if value < 64 {
        buf.push((value * 4) as u8);
        assert(buf@ =~= compact_bytes(value));
    } else if value < 16384 {
        push_le(&mut buf, value * 4 + 1, 2);
        assert(buf@ =~= compact_bytes(value));
    } else if value < 0x4000_0000 {
        push_le(&mut buf, value * 4 + 2, 4);
        assert(buf@ =~= compact_bytes(value));
    } else {
        buf.push(3u8);
        push_le(&mut buf, value, 8);
        assert(buf@ =~= compact_bytes(value));
    }
    buf
}

/// Decodes the compact integer at the start of `data`, giving its value and
/// the number of bytes it took.
pub fn decode_jam_compact(data: &[u8]) -> (r: Result<(u64, usize), BlcError>)
    ensures
        r == compact_decode(data@),
{
    if data.len() == 0 {
        return Err(BlcError::InsufficientBytesForCompactInteger { needed: 1, available: 0 });
    }
    let mode = data[0] % 4;
    let needed: usize = if mode == 0 {
        1
    } else if mode == 1 {
        2
    } else if mode == 2 {
        4
    } else {
        9
    };
    if data.len() < needed {
        return Err(
            BlcError::InsufficientBytesForCompactInteger { needed, available: data.len() },
        );
    }
    if mode == 3 {
        let v = read_le(data, 1, 8);
        Ok((v, 9))
    } else {
        let v = read_le(data, 0, needed);
        Ok((v / 4, needed))
    }
}

/// Decoding the compact encoding of any value, whatever bytes follow it,
/// gives the value and the length of its encoding.
pub proof fn lemma_compact_round_trip(v: u64, rest: Seq<u8>)
    ensures
        compact_decode(compact_bytes(v) + rest) == Ok::<(u64, usize), BlcError>(
            (v, compact_bytes(v).len() as usize),
        ),
{
    let data = compact_bytes(v) + rest;
    reveal_with_fuel(pow256, 9);
    if v < 64 {
        assert(data[0] == (v * 4) as u8);
        assert(data.subrange(0, 1) =~= seq![(v * 4) as u8]);
        assert(le_value(seq![(v * 4) as u8]) == le_value(seq![(v * 4) as u8].drop_first()) * 256
            + v * 4);
        assert(seq![(v * 4) as u8].drop_first() =~= Seq::<u8>::empty());
    } else if v < 16384 {
        lemma_le_round_trip((v * 4 + 1) as nat, 2);
        assert(data.subrange(0, 2) =~= compact_bytes(v));
        assert(data[0] == ((v * 4 + 1) % 256) as u8);
    } else if v < 0x4000_0000 {
        lemma_le_round_trip((v * 4 + 2) as nat, 4);
        assert(data.subrange(0, 4) =~= compact_bytes(v));
        assert(data[0] == ((v * 4 + 2) % 256) as u8);
    } else {
        lemma_le_round_trip(v as nat, 8);
        assert(data.subrange(1, 9) =~= le_bytes(v as nat, 8));
    }
}

/// A work item as a service's submission interface takes it.
#[derive(Debug, Clone)]
pub struct WorkItem {
    pub service_id: u32,
    pub payload: Vec<u8>,
    pub refine_gas: u64,
    pub accumulate_gas: u64,
}

/// The environment a program is started in: which program, an optional
/// root directory, its arguments and its environment variables.
#[derive(Debug, Clone)]
pub struct CorevmExecEnv {
    pub program_service_id: u32,
    pub program_hash: [u8; 32],
    pub root_dir: Option<([u8; 32], u32)>,
    pub args: Vec<String>,
    pub env: Vec<(String, String)>,
}

/// The UTF-8 bytes of a string, prefixed with their compact-encoded count.
pub open spec fn text_bytes(s: Seq<char>) -> Seq<u8> {
    compact_bytes(encode_utf8(s).len() as u64) + encode_utf8(s)
}

/// Each string as `text_bytes`, one after another.
pub open spec fn strings_bytes(ss: Seq<String>) -> Seq<u8>
    decreases ss.len(),
{
    if ss.len() == 0 {
        Seq::empty()
    } else {
        strings_bytes(ss.drop_last()) + text_bytes(ss.last()@)
    }
}

/// Each (key, value) pair as the key's `text_bytes` then the value's.
pub open spec fn pairs_bytes(ps: Seq<(String, String)>) -> Seq<u8>
    decreases ps.len(),
{
    if ps.len() == 0 {
        Seq::empty()
    } else {
        pairs_bytes(ps.drop_last()) + text_bytes(ps.last().0@) + text_bytes(ps.last().1@)
    }
}

/// The encoding of an optional root directory: `0`, or `1` then the
/// service id and the hash.
pub open spec fn root_dir_bytes(d: Option<([u8; 32], u32)>) -> Seq<u8> {
    match d {
        None => seq![0u8],
        Some((hash, svc)) => seq![1u8] + le_bytes(svc as nat, 4) + hash@,
    }
}

/// The encoding of an execution environment.
pub open spec fn exec_env_bytes(e: CorevmExecEnv) -> Seq<u8> {
    le_bytes(e.program_service_id as nat, 4) + e.program_hash@ + root_dir_bytes(e.root_dir)
        + compact_bytes(e.args@.len() as u64) + strings_bytes(e.args@) + compact_bytes(
        e.env@.len() as u64,
    ) + pairs_bytes(e.env@)
}

/// Appends `s` as its compact byte count then its UTF-8 bytes.
fn push_text(buf: &mut Vec<u8>, s: &str)
    ensures
        final(buf)@ == old(buf)@ + text_bytes(s@),
{
    let b = s.as_bytes();
    let len = encode_jam_compact(b.len() as u64);
    append_bytes(buf, len.as_slice());
    append_bytes(buf, b);
}

impl CorevmExecEnv {
    /// An environment that runs the program `code_hash` of `service_id`,
    /// with no root directory, arguments or variables.
    pub fn new(service_id: u32, code_hash: [u8; 32]) -> (r: Self)
        ensures
            r.program_service_id == service_id,
            r.program_hash == code_hash,
            r.root_dir is None,
            r.args@.len() == 0,
            r.env@.len() == 0,
    {
        CorevmExecEnv {
            program_service_id: service_id,
            program_hash: code_hash,
            root_dir: None,
            args: Vec::new(),
            env: Vec::new(),
        }
    }

    /// The same environment with one more argument at the end.
    pub fn arg(self, arg: &str) -> (r: Self)
        ensures
            r.program_service_id == self.program_service_id,
            r.program_hash == self.program_hash,
            r.root_dir == self.root_dir,
            r.args@.len() == self.args@.len() + 1,
            forall|i: int| 0 <= i < self.args@.len() ==> #[trigger] r.args@[i] == self.args@[i],
            r.args@.last()@ == arg@,
            r.env@ == self.env@,
    {
        let mut e = self;
        e.args.push(arg.to_owned());
        e
    }

    /// The same environment with one more variable at the end.
    pub fn env_var(self, key: &str, value: &str) -> (r: Self)
        ensures
            r.program_service_id == self.program_service_id,
            r.program_hash == self.program_hash,
            r.root_dir == self.root_dir,
            r.args@ == self.args@,
            r.env@.len() == self.env@.len() + 1,
            forall|i: int| 0 <= i < self.env@.len() ==> #[trigger] r.env@[i] == self.env@[i],
            r.env@.last().0@ == key@,
            r.env@.last().1@ == value@,
    {
        let mut e = self;
        e.env.push((key.to_owned(), value.to_owned()));
        e
    }

    pub fn encode(&self) -> (r: Vec<u8>)
        ensures
            r@ == exec_env_bytes(*self),
    {
        let mut buf: Vec<u8> = Vec::new();
        push_le(&mut buf, self.program_service_id as u64, 4);
        append_bytes(&mut buf, self.program_hash.as_slice());
        match &self.root_dir {
            None => buf.push(0u8),
            Some((hash, svc)) => {
                buf.push(1u8);
                push_le(&mut buf, *svc as u64, 4);
                append_bytes(&mut buf, hash.as_slice());
            },
        }
        let ghost head = buf@;
        assert(head =~= le_bytes(self.program_service_id as nat, 4) + self.program_hash@
            + root_dir_bytes(self.root_dir));
        let count = encode_jam_compact(self.args.len() as u64);
        append_bytes(&mut buf, count.as_slice());
        let ghost mid = buf@;
        let mut i: usize = 0;
        assert(self.args@.subrange(0, 0) =~= Seq::<String>::empty());
        while i < self.args.len()
            invariant
                i <= self.args@.len(),
                buf@ == mid + strings_bytes(self.args@.subrange(0, i as int)),
            decreases self.args@.len() - i,
        {
            push_text(&mut buf, self.args[i].as_str());
            assert(self.args@.subrange(0, i + 1).drop_last() =~= self.args@.subrange(0, i as int));
            i = i + 1;
            assert(buf@ =~= mid + strings_bytes(self.args@.subrange(0, i as int)));
        }
        assert(self.args@.subrange(0, i as int) =~= self.args@);
        let count = encode_jam_compact(self.env.len() as u64);
        append_bytes(&mut buf, count.as_slice());
        let ghost mid2 = buf@;
        let mut j: usize = 0;
        assert(self.env@.subrange(0, 0) =~= Seq::<(String, String)>::empty());
        while j < self.env.len()
            invariant
                j <= self.env@.len(),
                buf@ == mid2 + pairs_bytes(self.env@.subrange(0, j as int)),
            decreases self.env@.len() - j,
        {
            push_text(&mut buf, self.env[j].0.as_str());
            push_text(&mut buf, self.env[j].1.as_str());
            assert(self.env@.subrange(0, j + 1).drop_last() =~= self.env@.subrange(0, j as int));
            j = j + 1;
            assert(buf@ =~= mid2 + pairs_bytes(self.env@.subrange(0, j as int)));
        }
        assert(self.env@.subrange(0, j as int) =~= self.env@);
        assert(buf@ =~= exec_env_bytes(*self));
        buf
    }
}

/// A JSON-RPC request: protocol version, id, method and parameters.
pub struct RpcRequest<T> {
    pub jsonrpc: &'static str,
    pub id: u64,
    pub method: String,
    pub params: T,
}

impl<T> RpcRequest<T> {
    /// A version "2.0" request.
    pub fn new(id: u64, method: &str, params: T) -> (r: Self)
        ensures
            r.jsonrpc@ == "2.0"@,
            r.id == id,
            r.method@ == method@,
            r.params == params,
    {
        RpcRequest { jsonrpc: "2.0", id, method: method.to_owned(), params }
    }
}

/// A JSON-RPC response: a result, an error, or neither.
pub struct RpcResponse<T> {
    pub jsonrpc: String,
    pub id: u64,
    pub result: Option<T>,
    pub error: Option<RpcError>,
}

/// The error part of a JSON-RPC response.
#[derive(Debug, Clone)]
pub struct RpcError {
    pub code: i64,
    pub message: String,
}

/// What a service reports of itself.
#[derive(Debug, Clone)]
pub struct ServiceInfo {
    pub code_hash: String,
    pub balance: u64,
}

/// A connection to a node, implemented over whatever transport a caller has.
pub trait JamClient {
    type Error;

    /// Submits a work item, giving back its identifier.
    fn submit_work_item(&mut self, item: WorkItem) -> Result<String, Self::Error>;

    /// What the node knows of a service, if it knows the service.
    fn get_service(&self, service_id: u32) -> Result<Option<ServiceInfo>, Self::Error>;

    /// The value stored under `key` by a service, if any.
    fn get_storage(&self, service_id: u32, key: &[u8]) -> Result<Option<Vec<u8>>, Self::Error>;
}

/// A program for a service, with the gas to run it.
pub struct BlcWorkItem {
    pub service_id: u32,
    pub blc_program: Vec<u8>,
    pub gas: u64,
}

/// The encoding of an environment for `code_hash` of `service_id` with no
/// root directory, the one argument `arg`, and no variables.
pub open spec fn single_arg_env_bytes(service_id: u32, code_hash: Seq<u8>, arg: Seq<char>) -> Seq<
    u8,
> {
    le_bytes(service_id as nat, 4) + code_hash + seq![0u8] + compact_bytes(1) + text_bytes(arg)
        + compact_bytes(0)
}

/// The encoding of `CorevmExecEnv::new(service_id, code_hash).arg(arg)`.
pub proof fn lemma_single_arg_env(e: CorevmExecEnv, arg: Seq<char>)
    requires
        e.root_dir is None,
        e.args@.len() == 1,
        e.args@[0]@ == arg,
        e.env@.len() == 0,
    ensures
        exec_env_bytes(e) == single_arg_env_bytes(e.program_service_id, e.program_hash@, arg),
{
    assert(strings_bytes(e.args@) =~= text_bytes(arg)) by {
        assert(e.args@.drop_last() =~= Seq::<String>::empty());
        assert(strings_bytes(e.args@.drop_last()) =~= Seq::<u8>::empty());
        assert(Seq::<u8>::empty() + text_bytes(arg) =~= text_bytes(arg));
    }
    assert(pairs_bytes(e.env@) =~= Seq::<u8>::empty());
    assert(exec_env_bytes(e) =~= single_arg_env_bytes(e.program_service_id, e.program_hash@, arg));
}

/// The payload that starts `program` on `service_id`: an environment with
/// a zero code hash whose one argument is the program in hexadecimal.
pub open spec fn blc_payload_bytes(service_id: u32, program: Seq<u8>) -> Seq<u8> {
    single_arg_env_bytes(service_id, Seq::new(32, |i: int| 0u8), hex_text(program))
}

impl BlcWorkItem {
    /// An item for `blc_program` on `service_id` with the default gas.
    pub fn new(service_id: u32, blc_program: Vec<u8>) -> (r: Self)
        ensures
            r.service_id == service_id,
            r.blc_program@ == blc_program@,
            r.gas == crate::work_package::DEFAULT_GAS,
    {
        BlcWorkItem { service_id, blc_program, gas: crate::work_package::DEFAULT_GAS }
    }

    /// The same item with another gas budget.
    pub fn with_gas(self, gas: u64) -> (r: Self)
        ensures
            r.service_id == self.service_id,
            r.blc_program@ == self.blc_program@,
            r.gas == gas,
    {
        BlcWorkItem { gas, ..self }
    }

    /// The encoded environment that runs the program.
    pub fn build_payload(&self) -> (r: Vec<u8>)
        ensures
            r@ == blc_payload_bytes(self.service_id, self.blc_program@),
    {
        let hex_program = hex_encode(self.blc_program.as_slice());
        let code_hash = [0u8; 32];
        let env = CorevmExecEnv::new(self.service_id, code_hash).arg(hex_program.as_str());
        let r = env.encode();
        proof {
            lemma_single_arg_env(env, hex_program@);
            assert(code_hash@ =~= Seq::new(32, |i: int| 0u8));
        }
        r
    }

    /// The item as the submission interface takes it: the payload above,
    /// with the gas for both phases.
    pub fn to_work_item(&self) -> (r: WorkItem)
        ensures
            r.service_id == self.service_id,
            r.payload@ == blc_payload_bytes(self.service_id, self.blc_program@),
            r.refine_gas == self.gas,
            r.accumulate_gas == self.gas,
    {
        WorkItem {
            service_id: self.service_id,
            payload: self.build_payload(),
            refine_gas: self.gas,
            accumulate_gas: self.gas,
        }
    }
}

} // verus!
