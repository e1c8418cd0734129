//! Work packages: a program and its execution metadata in a fixed binary
//! layout, named by the Blake2b-256 digest of that layout.

use vstd::prelude::*;
use blake2::Digest;
use crate::bytes::{
    append_bytes, le_bytes, lemma_le_bytes_len, lemma_le_round_trip, pow256, push_le,
};
use crate::error::BlcError;
use crate::jam::{compact_bytes, encode_jam_compact, lemma_compact_round_trip};

verus! {

/// The Blake2b digest with 32 bytes of output of `data`.
pub uninterp spec fn blake2b_256_of(data: Seq<u8>) -> Seq<u8>;

/// Relies on blake2's `Blake2b<U32>` (`new`, `update`, `finalize`): the
/// 32-byte digest of the bytes given, a function of those bytes alone.
#[verifier::external_body]
pub fn blake2b_256(data: &[u8]) -> (r: [u8; 32])
    ensures
        r@ == blake2b_256_of(data@),
{
    let mut hasher = blake2::Blake2b::<blake2::digest::consts::U32>::new();
    hasher.update(data);
    hasher.finalize().into()
}

/// The gas budget that a builder starts with.
pub const DEFAULT_GAS: u64 = 1_000_000_000;

/// Encodes `value` as a compact integer (the same encoding as
/// `encode_jam_compact`).
pub fn encode_natural(value: u64) -> (r: Vec<u8>)
    ensures
        r@ == compact_bytes(value),
{
    encode_jam_compact(value)
}

/// The bytes of a sequence of 32-byte hashes, one after another.
pub open spec fn hashes_bytes(hs: Seq<[u8; 32]>) -> Seq<u8>
    decreases hs.len(),
{
    if hs.len() == 0 {
        Seq::empty()
    } else {
        hashes_bytes(hs.drop_last()) + hs.last()@
    }
}

/// The bytes of a sequence of (hash, length) references: each hash, then
/// its length as four little-endian bytes.
pub open spec fn refs_bytes(rs: Seq<([u8; 32], u32)>) -> Seq<u8>
    decreases rs.len(),
{
    if rs.len() == 0 {
        Seq::empty()
    } else {
        refs_bytes(rs.drop_last()) + rs.last().0@ + le_bytes(rs.last().1 as nat, 4)
    }
}

/// Appends the compact-encoded length `n`.
fn push_len(buf: &mut Vec<u8>, n: usize)
    ensures
        final(buf)@ == old(buf)@ + compact_bytes(n as u64),
{
    let len = encode_natural(n as u64);
    append_bytes(buf, len.as_slice());
}

fn push_hashes(buf: &mut Vec<u8>, hs: &Vec<[u8; 32]>)
    ensures
        final(buf)@ == old(buf)@ + hashes_bytes(hs@),
{
    let ghost start = buf@;
    let mut i: usize = 0;
    assert(hs@.subrange(0, 0) =~= Seq::<[u8; 32]>::empty());
    while i < hs.len()
        invariant
            i <= hs@.len(),
            buf@ == start + hashes_bytes(hs@.subrange(0, i as int)),
        decreases hs@.len() - i,
    {
        append_bytes(buf, hs[i].as_slice());
        assert(hs@.subrange(0, i + 1).drop_last() =~= hs@.subrange(0, i as int));
        i = i + 1;
        assert(buf@ =~= start + hashes_bytes(hs@.subrange(0, i as int)));
    }
    assert(hs@.subrange(0, i as int) =~= hs@);
}

fn push_refs(buf: &mut Vec<u8>, rs: &Vec<([u8; 32], u32)>)
    ensures
        final(buf)@ == old(buf)@ + refs_bytes(rs@),
{
    let ghost start = buf@;
    let mut i: usize = 0;
    assert(rs@.subrange(0, 0) =~= Seq::<([u8; 32], u32)>::empty());
    while i < rs.len()
        invariant
            i <= rs@.len(),
            buf@ == start + refs_bytes(rs@.subrange(0, i as int)),
        decreases rs@.len() - i,
    {
        append_bytes(buf, rs[i].0.as_slice());
        push_le(buf, rs[i].1 as u64, 4);
        assert(rs@.subrange(0, i + 1).drop_last() =~= rs@.subrange(0, i as int));
        i = i + 1;
        assert(buf@ =~= start + refs_bytes(rs@.subrange(0, i as int)));
    }
    assert(rs@.subrange(0, i as int) =~= rs@);
}

/// The chain context that a package is executed against.
#[derive(Clone, Debug)]
pub struct WorkContext {
    pub anchor: [u8; 32],
    pub state_root: [u8; 32],
    pub accumulation_root: [u8; 32],
    pub lookup_anchor: [u8; 32],
    pub lookup_hash: [u8; 32],
    pub lookup_slot: u32,
    pub prerequisites: Vec<[u8; 32]>,
}

/// The encoding of a context: its five hashes, the lookup slot, and the
/// length-prefixed prerequisites.
pub open spec fn context_bytes(c: WorkContext) -> Seq<u8> {
    c.anchor@ + c.state_root@ + c.accumulation_root@ + c.lookup_anchor@ + c.lookup_hash@
        + le_bytes(c.lookup_slot as nat, 4) + compact_bytes(c.prerequisites@.len() as u64)
        + hashes_bytes(c.prerequisites@)
}

impl WorkContext {
    /// A context with every hash zero, slot zero and no prerequisites.
    pub fn minimal() -> (r: Self)
        ensures
            r.anchor@ == Seq::new(32, |i: int| 0u8),
            r.state_root@ == Seq::new(32, |i: int| 0u8),
            r.accumulation_root@ == Seq::new(32, |i: int| 0u8),
            r.lookup_anchor@ == Seq::new(32, |i: int| 0u8),
            r.lookup_hash@ == Seq::new(32, |i: int| 0u8),
            r.lookup_slot == 0,
            r.prerequisites@.len() == 0,
    {
        let r = WorkContext {
            anchor: [0u8; 32],
            state_root: [0u8; 32],
            accumulation_root: [0u8; 32],
            lookup_anchor: [0u8; 32],
            lookup_hash: [0u8; 32],
            lookup_slot: 0,
            prerequisites: Vec::new(),
        };
        assert(r.anchor@ =~= Seq::new(32, |i: int| 0u8));
        r
    }

    pub fn encode(&self) -> (r: Vec<u8>)
        ensures
            r@ == context_bytes(*self),
    {
        let mut buf: Vec<u8> = Vec::new();
        append_bytes(&mut buf, self.anchor.as_slice());
        append_bytes(&mut buf, self.state_root.as_slice());
        append_bytes(&mut buf, self.accumulation_root.as_slice());
        append_bytes(&mut buf, self.lookup_anchor.as_slice());
        append_bytes(&mut buf, self.lookup_hash.as_slice());
        push_le(&mut buf, self.lookup_slot as u64, 4);
        push_len(&mut buf, self.prerequisites.len());
        push_hashes(&mut buf, &self.prerequisites);
        assert(buf@ =~= context_bytes(*self));
        buf
    }
}

/// One unit of work: a service, the code it runs, a payload for it, and
/// its gas budgets and data references.
#[derive(Clone, Debug)]
pub struct WorkItem {
    pub service: u32,
    pub code_hash: [u8; 32],
    pub payload: Vec<u8>,
    pub gas_refine: u64,
    pub gas_accumulate: u64,
    pub export_count: u16,
    pub imports: Vec<([u8; 32], u32)>,
    pub extrinsics: Vec<([u8; 32], u32)>,
}

/// The encoding of a work item.
pub open spec fn item_bytes(w: WorkItem) -> Seq<u8> {
    le_bytes(w.service as nat, 4) + w.code_hash@ + le_bytes(w.gas_refine as nat, 8) + le_bytes(
        w.gas_accumulate as nat,
        8,
    ) + le_bytes(w.export_count as nat, 2) + compact_bytes(w.payload@.len() as u64) + w.payload@
        + compact_bytes(w.imports@.len() as u64) + refs_bytes(w.imports@) + compact_bytes(
        w.extrinsics@.len() as u64,
    ) + refs_bytes(w.extrinsics@)
}

/// The encodings of several work items, one after another.
pub open spec fn items_bytes(ws: Seq<WorkItem>) -> Seq<u8>
    decreases ws.len(),
{
    if ws.len() == 0 {
        Seq::empty()
    } else {
        items_bytes(ws.drop_last()) + item_bytes(ws.last())
    }
}

impl WorkItem {
    /// An item that runs `blc_payload` on `service_id` with `gas` for both
    /// phases, no exports and no data references.
    pub fn new_blc(service_id: u32, code_hash: [u8; 32], blc_payload: Vec<u8>, gas: u64) -> (r:
        Self)
        ensures
            r.service == service_id,
            r.code_hash == code_hash,
            r.payload@ == blc_payload@,
            r.gas_refine == gas,
            r.gas_accumulate == gas,
            r.export_count == 0,
            r.imports@.len() == 0,
            r.extrinsics@.len() == 0,
    {
        WorkItem {
            service: service_id,
            code_hash,
            payload: blc_payload,
            gas_refine: gas,
            gas_accumulate: gas,
            export_count: 0,
            imports: Vec::new(),
            extrinsics: Vec::new(),
        }
    }

    pub fn encode(&self) -> (r: Vec<u8>)
        ensures
            r@ == item_bytes(*self),
    {
        let mut buf: Vec<u8> = Vec::new();
        push_le(&mut buf, self.service as u64, 4);
        append_bytes(&mut buf, self.code_hash.as_slice());
        push_le(&mut buf, self.gas_refine, 8);
        push_le(&mut buf, self.gas_accumulate, 8);
        push_le(&mut buf, self.export_count as u64, 2);
        push_len(&mut buf, self.payload.len());
        append_bytes(&mut buf, self.payload.as_slice());
        push_len(&mut buf, self.imports.len());
        push_refs(&mut buf, &self.imports);
        push_len(&mut buf, self.extrinsics.len());
        push_refs(&mut buf, &self.extrinsics);
        assert(buf@ =~= item_bytes(*self));
        buf
    }
}

/// A package of work items with the authorization and context they run under.
#[derive(Clone, Debug)]
pub struct WorkPackage {
    pub authorization_token: Vec<u8>,
    pub auth_service: u32,
    pub auth_code_hash: [u8; 32],
    pub auth_config: Vec<u8>,
    pub context: WorkContext,
    pub items: Vec<WorkItem>,
}

/// The encoding of a package; its identifier is the digest of these bytes.
pub open spec fn package_bytes(p: WorkPackage) -> Seq<u8> {
    le_bytes(p.auth_service as nat, 4) + p.auth_code_hash@ + context_bytes(p.context)
        + compact_bytes(p.authorization_token@.len() as u64) + p.authorization_token@
        + compact_bytes(p.auth_config@.len() as u64) + p.auth_config@ + compact_bytes(
        p.items@.len() as u64,
    ) + items_bytes(p.items@)
}

impl WorkPackage {
    /// A package of `items` under the bootstrap authorization: service zero,
    /// a zero code hash, no token or configuration, and a minimal context.
    pub fn new_minimal(items: Vec<WorkItem>) -> (r: Self)
        ensures
            r.authorization_token@.len() == 0,
            r.auth_service == 0,
            r.auth_code_hash@ == Seq::new(32, |i: int| 0u8),
            r.auth_config@.len() == 0,
            r.context.anchor@ == Seq::new(32, |i: int| 0u8),
            r.context.state_root@ == Seq::new(32, |i: int| 0u8),
            r.context.accumulation_root@ == Seq::new(32, |i: int| 0u8),
            r.context.lookup_anchor@ == Seq::new(32, |i: int| 0u8),
            r.context.lookup_hash@ == Seq::new(32, |i: int| 0u8),
            r.context.lookup_slot == 0,
            r.context.prerequisites@.len() == 0,
            r.items@ == items@,
    {
        let r = WorkPackage {
            authorization_token: Vec::new(),
            auth_service: 0,
            auth_code_hash: [0u8; 32],
            auth_config: Vec::new(),
            context: WorkContext::minimal(),
            items,
        };
        assert(r.auth_code_hash@ =~= Seq::new(32, |i: int| 0u8));
        r
    }

    pub fn encode(&self) -> (r: Vec<u8>)
        ensures
            r@ == package_bytes(*self),
    {
        let mut buf: Vec<u8> = Vec::new();
        push_le(&mut buf, self.auth_service as u64, 4);
        append_bytes(&mut buf, self.auth_code_hash.as_slice());
        let context = self.context.encode();
        append_bytes(&mut buf, context.as_slice());
        push_len(&mut buf, self.authorization_token.len());
        append_bytes(&mut buf, self.authorization_token.as_slice());
        push_len(&mut buf, self.auth_config.len());
        append_bytes(&mut buf, self.auth_config.as_slice());
        push_len(&mut buf, self.items.len());
        let ghost mid = buf@;
        let mut i: usize = 0;
        assert(self.items@.subrange(0, 0) =~= Seq::<WorkItem>::empty());
        while i < self.items.len()
            invariant
                i <= self.items@.len(),
                buf@ == mid + items_bytes(self.items@.subrange(0, i as int)),
            decreases self.items@.len() - i,
        {
            let item = self.items[i].encode();
            append_bytes(&mut buf, item.as_slice());
            assert(self.items@.subrange(0, i + 1).drop_last() =~= self.items@.subrange(
                0,
                i as int,
            ));
            i = i + 1;
            assert(buf@ =~= mid + items_bytes(self.items@.subrange(0, i as int)));
        }
        assert(self.items@.subrange(0, i as int) =~= self.items@);
        assert(buf@ =~= package_bytes(*self));
        buf
    }

    /// The package's identifier: the digest of its encoding, computed afresh.
    pub fn hash(&self) -> (r: [u8; 32])
        ensures
            r@ == blake2b_256_of(package_bytes(*self)),
    {
        let bytes = self.encode();
        blake2b_256(bytes.as_slice())
    }
}

/// A 32-byte code reference from a slice, which must hold exactly 32 bytes.
pub fn code_hash_from_slice(code_reference: &[u8]) -> (r: Result<[u8; 32], BlcError>)
    ensures
        code_reference@.len() == 32 ==> (r matches Ok(h) && h@ == code_reference@),
        code_reference@.len() != 32 ==> r == Err::<[u8; 32], BlcError>(
            BlcError::InvalidCodeReferenceLength { length: code_reference@.len() as usize },
        ),
{
    if code_reference.len() != 32 {
        return Err(BlcError::InvalidCodeReferenceLength { length: code_reference.len() });
    }
    let mut code_hash = [0u8; 32];
    let mut i: usize = 0;
    while i < 32
        invariant
            i <= 32,
            code_reference@.len() == 32,
            forall|k: int| 0 <= k < i ==> code_hash@[k] == code_reference@[k],
        decreases 32 - i,
    {
        code_hash[i] = code_reference[i];
        i = i + 1;
    }
    assert(code_hash@ =~= code_reference@);
    Ok(code_hash)
}

/// Settings for packages that run one program on one service.
pub struct BlcWorkPackageBuilder {
    pub service_id: u32,
    pub code_hash: [u8; 32],
    pub gas: u64,
}

/// The package that `b` builds around `program`: one item with the
/// builder's service, code hash and gas, under the bootstrap authorization.
pub open spec fn built_package(b: BlcWorkPackageBuilder, program: Seq<u8>, p: WorkPackage) -> bool {
    &&& p.authorization_token@.len() == 0
    &&& p.auth_service == 0
    &&& p.auth_code_hash@ == Seq::new(32, |i: int| 0u8)
    &&& p.auth_config@.len() == 0
    &&& p.context.anchor@ == Seq::new(32, |i: int| 0u8)
    &&& p.context.state_root@ == Seq::new(32, |i: int| 0u8)
    &&& p.context.accumulation_root@ == Seq::new(32, |i: int| 0u8)
    &&& p.context.lookup_anchor@ == Seq::new(32, |i: int| 0u8)
    &&& p.context.lookup_hash@ == Seq::new(32, |i: int| 0u8)
    &&& p.context.lookup_slot == 0
    &&& p.context.prerequisites@.len() == 0
    &&& p.items@.len() == 1
    &&& p.items@[0].service == b.service_id
    &&& p.items@[0].code_hash == b.code_hash
    &&& p.items@[0].payload@ == program
    &&& p.items@[0].gas_refine == b.gas
    &&& p.items@[0].gas_accumulate == b.gas
    &&& p.items@[0].export_count == 0
    &&& p.items@[0].imports@.len() == 0
    &&& p.items@[0].extrinsics@.len() == 0
}

impl BlcWorkPackageBuilder {
    /// A builder for `service_id` and `code_hash` with the default gas.
    pub fn new(service_id: u32, code_hash: [u8; 32]) -> (r: Self)
        ensures
            r.service_id == service_id,
            r.code_hash == code_hash,
            r.gas == DEFAULT_GAS,
    {
        BlcWorkPackageBuilder { service_id, code_hash, gas: DEFAULT_GAS }
    }

    /// A builder for `service_id` whose code reference is given as a byte
    /// slice, which must be exactly 32 bytes long.
    pub fn from_code_reference(service_id: u32, code_reference: &[u8]) -> (r: Result<
        Self,
        BlcError,
    >)
        ensures
            code_reference@.len() == 32 <==> r is Ok,
            r matches Ok(b) ==> b.service_id == service_id && b.code_hash@ == code_reference@
                && b.gas == DEFAULT_GAS,
            code_reference@.len() != 32 ==> r == Err::<Self, BlcError>(
                BlcError::InvalidCodeReferenceLength { length: code_reference@.len() as usize },
            ),
    {
        let code_hash = code_hash_from_slice(code_reference)?;
        Ok(BlcWorkPackageBuilder::new(service_id, code_hash))
    }

    /// The same settings with another gas budget.
    pub fn gas(self, gas: u64) -> (r: Self)
        ensures
            r.service_id == self.service_id,
            r.code_hash == self.code_hash,
            r.gas == gas,
    {
        BlcWorkPackageBuilder { gas, ..self }
    }

    /// The single-item package that runs `blc_program`.
    pub fn build(&self, blc_program: &[u8]) -> (r: WorkPackage)
        ensures
            built_package(*self, blc_program@, r),
    {
        let mut payload: Vec<u8> = Vec::new();
        append_bytes(&mut payload, blc_program);
        let item = WorkItem::new_blc(self.service_id, self.code_hash, payload, self.gas);
        WorkPackage::new_minimal(vec![item])
    }
}

/// `n` zero bytes.
pub open spec fn zeros(n: nat) -> Seq<u8> {
    Seq::new(n, |i: int| 0u8)
}

/// The encoding of the package that a builder with these settings makes
/// around `program`.
pub open spec fn bootstrap_package_bytes(
    service_id: u32,
    code_hash: Seq<u8>,
    gas: u64,
    program: Seq<u8>,
) -> Seq<u8> {
    le_bytes(0, 4) + zeros(32) + (zeros(160) + le_bytes(0, 4) + compact_bytes(0)) + compact_bytes(
        0,
    ) + compact_bytes(0) + compact_bytes(1) + (le_bytes(service_id as nat, 4) + code_hash
        + le_bytes(gas as nat, 8) + le_bytes(gas as nat, 8) + le_bytes(0, 2) + compact_bytes(
        program.len() as u64,
    ) + program + compact_bytes(0) + compact_bytes(0))
}

/// A package that a builder makes encodes to `bootstrap_package_bytes` of
/// the builder's settings and the program.
pub proof fn lemma_built_package_bytes(b: BlcWorkPackageBuilder, program: Seq<u8>, p: WorkPackage)
    requires
        built_package(b, program, p),
    ensures
        package_bytes(p) == bootstrap_package_bytes(b.service_id, b.code_hash@, b.gas, program),
{
    let c = p.context;
    assert(hashes_bytes(c.prerequisites@) =~= Seq::<u8>::empty());
    assert(c.anchor@ + c.state_root@ + c.accumulation_root@ + c.lookup_anchor@ + c.lookup_hash@
        =~= zeros(160));
    let w = p.items@[0];
    assert(refs_bytes(w.imports@) =~= Seq::<u8>::empty());
    assert(refs_bytes(w.extrinsics@) =~= Seq::<u8>::empty());
    assert(p.items@.drop_last() =~= Seq::<WorkItem>::empty());
    assert(items_bytes(p.items@) =~= item_bytes(w)) by {
        assert(items_bytes(p.items@.drop_last()) =~= Seq::<u8>::empty());
    }
    assert(p.auth_code_hash@ =~= zeros(32));
    assert(package_bytes(p) =~= bootstrap_package_bytes(
        b.service_id,
        b.code_hash@,
        b.gas,
        program,
    ));
}

/// A package's identifier is a function of its encoding: two packages with
/// the same encoding get the same identifier, and hashing a package twice
/// gives the same 32 bytes.
pub proof fn lemma_hash_deterministic(p: WorkPackage, q: WorkPackage)
    requires
        package_bytes(p) == package_bytes(q),
    ensures
        blake2b_256_of(package_bytes(p)) == blake2b_256_of(package_bytes(q)),
{
}

/// Packages that builders for one service and code hash make encode
/// differently when their gas or their program differs, so their
/// identifiers differ unless the digest collides.
pub proof fn lemma_bootstrap_bytes_distinguish(
    service_id: u32,
    code_hash: Seq<u8>,
    gas1: u64,
    prog1: Seq<u8>,
    gas2: u64,
    prog2: Seq<u8>,
)
    requires
        code_hash.len() == 32,
        prog1.len() <= u64::MAX,
        prog2.len() <= u64::MAX,
        gas1 != gas2 || prog1 != prog2,
    ensures
        bootstrap_package_bytes(service_id, code_hash, gas1, prog1) != bootstrap_package_bytes(
            service_id,
            code_hash,
            gas2,
            prog2,
        ),
{
    let b1 = bootstrap_package_bytes(service_id, code_hash, gas1, prog1);
    let b2 = bootstrap_package_bytes(service_id, code_hash, gas2, prog2);
    lemma_le_bytes_len(0, 4);
    lemma_le_bytes_len(0, 2);
    lemma_le_bytes_len(service_id as nat, 4);
    lemma_le_bytes_len(gas1 as nat, 8);
    lemma_le_bytes_len(gas2 as nat, 8);
    let head = le_bytes(0, 4) + zeros(32) + (zeros(160) + le_bytes(0, 4) + compact_bytes(0))
        + compact_bytes(0) + compact_bytes(0) + compact_bytes(1) + le_bytes(service_id as nat, 4)
        + code_hash;
    assert(head.len() == 240);
    let tail1 = compact_bytes(prog1.len() as u64) + (prog1 + seq![0u8, 0u8]);
    let tail2 = compact_bytes(prog2.len() as u64) + (prog2 + seq![0u8, 0u8]);
    let gas_bytes1 = le_bytes(gas1 as nat, 8);
    assert(b1 =~= head + gas_bytes1 + gas_bytes1 + le_bytes(0, 2) + tail1);
    let gas_bytes2 = le_bytes(gas2 as nat, 8);
    assert(b2 =~= head + gas_bytes2 + gas_bytes2 + le_bytes(0, 2) + tail2);
    if b1 == b2 {
        reveal_with_fuel(pow256, 9);
        assert(b1.subrange(240, 248) =~= le_bytes(gas1 as nat, 8));
        assert(b2.subrange(240, 248) =~= le_bytes(gas2 as nat, 8));
        lemma_le_round_trip(gas1 as nat, 8);
        lemma_le_round_trip(gas2 as nat, 8);
        assert(gas1 == gas2);
        assert(b1.subrange(258, b1.len() as int) =~= tail1);
        assert(b2.subrange(258, b2.len() as int) =~= tail2);
        assert(tail1 == tail2);
        lemma_compact_round_trip(prog1.len() as u64, prog1 + seq![0u8, 0u8]);
        lemma_compact_round_trip(prog2.len() as u64, prog2 + seq![0u8, 0u8]);
        assert(prog1.len() == prog2.len());
        let c = compact_bytes(prog1.len() as u64).len() as int;
        assert(tail1.subrange(c, c + prog1.len()) =~= prog1);
        assert(tail2.subrange(c, c + prog2.len()) =~= prog2);
    }
}

} // verus!
