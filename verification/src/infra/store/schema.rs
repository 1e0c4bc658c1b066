//! The binary layout of a template record: a little-endian header of 91
//! bytes followed by three bytes per gate.
use vstd::prelude::*;

use crate::infra::circuit::CircuitSeq;
use crate::infra::ids_index::le_u64;

verus! {

/// A gate of a stored template.
#[derive(Clone, Copy, PartialEq, Eq, Hash, Debug)]
pub struct Gate {
    pub target: u8,
    pub c1: u8,
    pub c2: u8,
}

/// The little-endian `u16` of the first two bytes.
pub open spec fn le_u16(b: Seq<u8>) -> u16 {
    (b[0] as u16) | ((b[1] as u16) << 8u16)
}

/// The little-endian `u32` of the first four bytes.
pub open spec fn le_u32(b: Seq<u8>) -> u32 {
    (b[0] as u32) | ((b[1] as u32) << 8u32) | ((b[2] as u32) << 16u32) | ((b[3] as u32) << 24u32)
}

/// `LittleEndian::read_u16`: the first two bytes, least significant first.
#[verifier::external_body]
fn read_u16_le(buf: &[u8]) -> (r: u16)
    requires
        buf@.len() >= 2,
    ensures
        r == le_u16(buf@),
{
    <byteorder::LittleEndian as byteorder::ByteOrder>::read_u16(buf)
}

/// `LittleEndian::read_u32`: the first four bytes, least significant first.
#[verifier::external_body]
fn read_u32_le(buf: &[u8]) -> (r: u32)
    requires
        buf@.len() >= 4,
    ensures
        r == le_u32(buf@),
{
    <byteorder::LittleEndian as byteorder::ByteOrder>::read_u32(buf)
}

/// `LittleEndian::read_u64`: the first eight bytes, least significant first.
#[verifier::external_body]
fn read_u64_le(buf: &[u8]) -> (r: u64)
    requires
        buf@.len() >= 8,
    ensures
        r == le_u64(buf@),
{
    <byteorder::LittleEndian as byteorder::ByteOrder>::read_u64(buf)
}

/// A stored identity template.
#[derive(Debug, Clone)]
pub struct TemplateRecord {
    pub template_id: u64,
    pub basis_id: u8,
    pub width: u8,
    pub gate_count: u16,
    pub canonical_hash: [u8; 32],
    pub family_hash: [u8; 32],
    pub origin: u8,
    pub origin_template_id: u64,
    pub unroll_ops: u32,
    pub gates: Vec<Gate>,
}

/// The number of gates that a record's header declares (`gates_len`).
pub open spec fn declared_gates(bytes: Seq<u8>) -> nat {
    le_u16(bytes.subrange(89, 91)) as nat
}

/// The bytes form a record: a full header and exactly three bytes for each
/// gate that it declares.
pub open spec fn is_record(bytes: Seq<u8>) -> bool {
    bytes.len() >= 91 && bytes.len() == 91 + 3 * declared_gates(bytes)
}

/// `r` holds the fields that `bytes` encodes.
pub open spec fn decodes_to(bytes: Seq<u8>, r: TemplateRecord) -> bool {
    &&& r.template_id == le_u64(bytes.subrange(0, 8))
    &&& r.basis_id == bytes[8]
    &&& r.width == bytes[9]
    &&& r.gate_count == le_u16(bytes.subrange(10, 12))
    &&& r.canonical_hash@ == bytes.subrange(12, 44)
    &&& r.family_hash@ == bytes.subrange(44, 76)
    &&& r.origin == bytes[76]
    &&& r.origin_template_id == le_u64(bytes.subrange(77, 85))
    &&& r.unroll_ops == le_u32(bytes.subrange(85, 89))
    &&& r.gates@.len() == declared_gates(bytes)
    &&& forall|i: int|
        0 <= i < r.gates@.len() ==> #[trigger] r.gates@[i] == (Gate {
            target: bytes[91 + 3 * i],
            c1: bytes[91 + 3 * i + 1],
            c2: bytes[91 + 3 * i + 2],
        })
}

/// Copies 32 bytes starting at `start`.
fn copy_32(bytes: &[u8], start: usize) -> (r: [u8; 32])
    requires
        start + 32 <= bytes@.len(),
    ensures
        r@ == bytes@.subrange(start as int, start + 32),
{
    let n = bytes.len();
    let mut out = [0u8; 32];
    let mut i: usize = 0;
    while i < 32
        invariant
            i <= 32,
            n == bytes@.len(),
            start + 32 <= n,
            out@.len() == 32,
            forall|j: int| 0 <= j < i ==> out@[j] == bytes@[start + j],
        decreases 32 - i,
    {
        out[i] = bytes[start + i];
        i += 1;
    }
    proof {
        assert(out@ =~= bytes@.subrange(start as int, start + 32));
    }
    out
}

impl TemplateRecord {
    /// Length of the fixed header in bytes.
    pub const HEADER_SIZE: usize = 91;

    /// Parses a record; `None` when the header is incomplete or the length
    /// is not the header plus three bytes for each declared gate.
    pub fn from_bytes(bytes: &[u8]) -> (r: Option<Self>)
        ensures
            r is Some <==> is_record(bytes@),
            r matches Some(rec) ==> decodes_to(bytes@, rec),
    {
        if bytes.len() < 91 {
            return None;
        }
        let template_id = read_u64_le(slice_from(bytes, 0, 8));
        let basis_id = bytes[8];
        let width = bytes[9];
        let gate_count = read_u16_le(slice_from(bytes, 10, 12));
        let canonical_hash = copy_32(bytes, 12);
        let family_hash = copy_32(bytes, 44);
        let origin = bytes[76];
        let origin_template_id = read_u64_le(slice_from(bytes, 77, 85));
        let unroll_ops = read_u32_le(slice_from(bytes, 85, 89));
        let num_gates = read_u16_le(slice_from(bytes, 89, 91)) as usize;
        if bytes.len() != 91 + 3 * num_gates {
            return None;
        }
        let mut gates: Vec<Gate> = Vec::with_capacity(num_gates);
        let mut i: usize = 0;
        while i < num_gates
            invariant
                i <= num_gates,
                num_gates < 65536,
                bytes@.len() == 91 + 3 * num_gates,
                gates@.len() == i,
                forall|j: int|
                    0 <= j < i ==> #[trigger] gates@[j] == (Gate {
                        target: bytes@[91 + 3 * j],
                        c1: bytes@[91 + 3 * j + 1],
                        c2: bytes@[91 + 3 * j + 2],
                    }),
            decreases num_gates - i,
        {
            let offset = 91 + i * 3;
            gates.push(Gate { target: bytes[offset], c1: bytes[offset + 1], c2: bytes[offset + 2] });
            i += 1;
        }
        Some(
            TemplateRecord {
                template_id,
                basis_id,
                width,
                gate_count,
                canonical_hash,
                family_hash,
                origin,
                origin_template_id,
                unroll_ops,
                gates,
            },
        )
    }

    /// The template as a circuit of `[target, c1, c2]` gates.
    pub fn to_circuit_seq(&self) -> (r: CircuitSeq)
        ensures
            r@.len() == self.gates@.len(),
            forall|i: int|
                0 <= i < r@.len() ==> #[trigger] r@[i] == [
                    self.gates@[i].target,
                    self.gates@[i].c1,
                    self.gates@[i].c2,
                ],
    {
        let n = self.gates.len();
        let mut gates: Vec<[u8; 3]> = Vec::with_capacity(n);
        let mut i: usize = 0;
        while i < n
            invariant
                i <= n,
                n == self.gates@.len(),
                gates@.len() == i,
                forall|j: int|
                    0 <= j < i ==> #[trigger] gates@[j] == [
                        self.gates@[j].target,
                        self.gates@[j].c1,
                        self.gates@[j].c2,
                    ],
            decreases n - i,
        {
            let g = self.gates[i];
            gates.push([g.target, g.c1, g.c2]);
            i += 1;
        }
        CircuitSeq { gates }
    }
}

/// The bytes `start..end`.
fn slice_from(bytes: &[u8], start: usize, end: usize) -> (r: &[u8])
    requires
        start <= end <= bytes@.len(),
    ensures
        r@ == bytes@.subrange(start as int, end as int),
{
    vstd::slice::slice_subrange(bytes, start, end)
}

} // verus!
