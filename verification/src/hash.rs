//! Domain-separated commitment hashing.
//!
//! Every commitment in this crate is a blake2b-256 digest with the
//! personalization tag `woss`.  The digest itself is outside knowledge: it is
//! named by [`blake2b_woss`] and never written out, so everything proved here
//! holds relative to that name.

use vstd::prelude::*;
use vstd::bytes::{spec_u32_to_le_bytes, spec_u64_to_le_bytes, u32_to_le_bytes, u64_to_le_bytes};
use crate::bytes32::Bytes32;

verus! {

/// The 32-byte blake2b digest, personalization `woss`, of a byte string.
pub uninterp spec fn blake2b_woss(data: Seq<u8>) -> Seq<u8>;

/// Relies on blake2b_ref::Blake2bBuilder: `new(32).personal(b"woss")` yields a
/// hasher whose 32-byte digest depends on the fed bytes alone.
#[verifier::external_body]
pub fn blake2b256(data: &Vec<u8>) -> (r: Bytes32)
    ensures
        r@ == blake2b_woss(data@),
{
    let mut buf = [0u8; 32];
    let mut hasher = blake2b_ref::Blake2bBuilder::new(32).personal(b"woss").build();
    hasher.update(data.as_slice());
    hasher.finalize(&mut buf);
    Bytes32::new(buf.to_vec()).expect("digest is 32 bytes")
}

/// The domain separator fed before the fields of the whole-machine digest.
pub open spec fn tag_machine() -> Seq<u8> {
    seq![0x4du8, 0x61u8, 0x63u8, 0x68u8, 0x69u8, 0x6eu8, 0x65u8]
}

/// The domain separator of the register-file digest.
pub open spec fn tag_registers() -> Seq<u8> {
    seq![0x52u8, 0x65u8, 0x67u8, 0x69u8, 0x73u8, 0x74u8, 0x65u8, 0x72u8, 0x73u8]
}

/// The domain separator of the program-counter digest.
pub open spec fn tag_pc() -> Seq<u8> {
    seq![0x50u8, 0x43u8]
}

/// The domain separator of the pending-program-counter digest.
pub open spec fn tag_next_pc() -> Seq<u8> {
    seq![0x4eu8, 0x65u8, 0x78u8, 0x74u8, 0x5fu8, 0x50u8, 0x43u8]
}

/// The domain separator of the memory digest.
pub open spec fn tag_memory() -> Seq<u8> {
    seq![0x4du8, 0x65u8, 0x6du8, 0x6fu8, 0x72u8, 0x79u8]
}

/// The domain separator of the cycle-counter digest.
pub open spec fn tag_cycles() -> Seq<u8> {
    seq![0x43u8, 0x79u8, 0x63u8, 0x6cu8, 0x65u8, 0x73u8]
}

/// The domain separator of the cycle-limit digest.
pub open spec fn tag_max_cycles() -> Seq<u8> {
    seq![0x4du8, 0x61u8, 0x78u8, 0x5fu8, 0x43u8, 0x79u8, 0x63u8, 0x6cu8, 0x65u8, 0x73u8]
}

/// The domain separator of the running-flag digest.
pub open spec fn tag_running() -> Seq<u8> {
    seq![0x52u8, 0x75u8, 0x6eu8, 0x6eu8, 0x69u8, 0x6eu8, 0x67u8]
}

/// The domain separator of the instruction-set digest.
pub open spec fn tag_isa() -> Seq<u8> {
    seq![0x49u8, 0x53u8, 0x41u8]
}

/// The domain separator of the version digest.
pub open spec fn tag_version() -> Seq<u8> {
    seq![0x56u8, 0x65u8, 0x72u8, 0x73u8, 0x69u8, 0x6fu8, 0x6eu8]
}

/// The domain separator of a page-flag tree key.
pub open spec fn tag_flag() -> Seq<u8> {
    seq![0x46u8, 0x6cu8, 0x61u8, 0x67u8]
}

/// The domain separator of a data-chunk tree key.
pub open spec fn tag_data() -> Seq<u8> {
    seq![0x44u8, 0x61u8, 0x74u8, 0x61u8]
}

/// Append the ASCII bytes of `Flag` to `out`.
pub fn push_tag_flag(out: &mut Vec<u8>)
    ensures
        final(out)@ == old(out)@ + tag_flag(),
{
    out.push(0x46u8);
    out.push(0x6cu8);
    out.push(0x61u8);
    out.push(0x67u8);
    assert(out@ =~= old(out)@ + tag_flag());
}

/// Append the ASCII bytes of `Data` to `out`.
pub fn push_tag_data(out: &mut Vec<u8>)
    ensures
        final(out)@ == old(out)@ + tag_data(),
{
    out.push(0x44u8);
    out.push(0x61u8);
    out.push(0x74u8);
    out.push(0x61u8);
    assert(out@ =~= old(out)@ + tag_data());
}

/// Append the ASCII bytes of `Machine` to `out`.
pub fn push_tag_machine(out: &mut Vec<u8>)
    ensures
        final(out)@ == old(out)@ + tag_machine(),
{
    out.push(0x4du8);
    out.push(0x61u8);
    out.push(0x63u8);
    out.push(0x68u8);
    out.push(0x69u8);
    out.push(0x6eu8);
    out.push(0x65u8);
    assert(out@ =~= old(out)@ + tag_machine());
}

/// Append the ASCII bytes of `Registers` to `out`.
pub fn push_tag_registers(out: &mut Vec<u8>)
    ensures
        final(out)@ == old(out)@ + tag_registers(),
{
    out.push(0x52u8);
    out.push(0x65u8);
    out.push(0x67u8);
    out.push(0x69u8);
    out.push(0x73u8);
    out.push(0x74u8);
    out.push(0x65u8);
    out.push(0x72u8);
    out.push(0x73u8);
    assert(out@ =~= old(out)@ + tag_registers());
}

/// Append the ASCII bytes of `PC` to `out`.
pub fn push_tag_pc(out: &mut Vec<u8>)
    ensures
        final(out)@ == old(out)@ + tag_pc(),
{
    out.push(0x50u8);
    out.push(0x43u8);
    assert(out@ =~= old(out)@ + tag_pc());
}

/// Append the ASCII bytes of `Next_PC` to `out`.
pub fn push_tag_next_pc(out: &mut Vec<u8>)
    ensures
        final(out)@ == old(out)@ + tag_next_pc(),
{
    out.push(0x4eu8);
    out.push(0x65u8);
    out.push(0x78u8);
    out.push(0x74u8);
    out.push(0x5fu8);
    out.push(0x50u8);
    out.push(0x43u8);
    assert(out@ =~= old(out)@ + tag_next_pc());
}

/// Append the ASCII bytes of `Memory` to `out`.
pub fn push_tag_memory(out: &mut Vec<u8>)
    ensures
        final(out)@ == old(out)@ + tag_memory(),
{
    out.push(0x4du8);
    out.push(0x65u8);
    out.push(0x6du8);
    out.push(0x6fu8);
    out.push(0x72u8);
    out.push(0x79u8);
    assert(out@ =~= old(out)@ + tag_memory());
}

/// Append the ASCII bytes of `Cycles` to `out`.
pub fn push_tag_cycles(out: &mut Vec<u8>)
    ensures
        final(out)@ == old(out)@ + tag_cycles(),
{
    out.push(0x43u8);
    out.push(0x79u8);
    out.push(0x63u8);
    out.push(0x6cu8);
    out.push(0x65u8);
    out.push(0x73u8);
    assert(out@ =~= old(out)@ + tag_cycles());
}

/// Append the ASCII bytes of `Max_Cycles` to `out`.
pub fn push_tag_max_cycles(out: &mut Vec<u8>)
    ensures
        final(out)@ == old(out)@ + tag_max_cycles(),
{
    out.push(0x4du8);
    out.push(0x61u8);
    out.push(0x78u8);
    out.push(0x5fu8);
    out.push(0x43u8);
    out.push(0x79u8);
    out.push(0x63u8);
    out.push(0x6cu8);
    out.push(0x65u8);
    out.push(0x73u8);
    assert(out@ =~= old(out)@ + tag_max_cycles());
}

/// Append the ASCII bytes of `Running` to `out`.
pub fn push_tag_running(out: &mut Vec<u8>)
    ensures
        final(out)@ == old(out)@ + tag_running(),
{
    out.push(0x52u8);
    out.push(0x75u8);
    out.push(0x6eu8);
    out.push(0x6eu8);
    out.push(0x69u8);
    out.push(0x6eu8);
    out.push(0x67u8);
    assert(out@ =~= old(out)@ + tag_running());
}

/// Append the ASCII bytes of `ISA` to `out`.
pub fn push_tag_isa(out: &mut Vec<u8>)
    ensures
        final(out)@ == old(out)@ + tag_isa(),
{
    out.push(0x49u8);
    out.push(0x53u8);
    out.push(0x41u8);
    assert(out@ =~= old(out)@ + tag_isa());
}

/// Append the ASCII bytes of `Version` to `out`.
pub fn push_tag_version(out: &mut Vec<u8>)
    ensures
        final(out)@ == old(out)@ + tag_version(),
{
    out.push(0x56u8);
    out.push(0x65u8);
    out.push(0x72u8);
    out.push(0x73u8);
    out.push(0x69u8);
    out.push(0x6fu8);
    out.push(0x6eu8);
    assert(out@ =~= old(out)@ + tag_version());
}

/// Append a `u64` in little-endian order to `out`.
pub fn push_u64_le(out: &mut Vec<u8>, v: u64)
    ensures
        final(out)@ == old(out)@ + spec_u64_to_le_bytes(v),
{
    let mut b = u64_to_le_bytes(v);
    out.append(&mut b);
}

/// Append a `u32` in little-endian order to `out`.
pub fn push_u32_le(out: &mut Vec<u8>, v: u32)
    ensures
        final(out)@ == old(out)@ + spec_u32_to_le_bytes(v),
{
    let mut b = u32_to_le_bytes(v);
    out.append(&mut b);
}

/// Append the 32 bytes of `b` to `out`.
pub fn push_bytes32(out: &mut Vec<u8>, b: &Bytes32)
    ensures
        final(out)@ == old(out)@ + b@,
{
    let mut v = b.to_vec();
    out.append(&mut v);
}

/// The tree key under which page `page` keeps its flag byte.
pub open spec fn flag_key_spec(page: u64) -> Seq<u8> {
    blake2b_woss(tag_flag() + spec_u64_to_le_bytes(page))
}

/// The tree key under which chunk `chunk` (of 32 bytes) keeps its data.
pub open spec fn data_key_spec(chunk: u64) -> Seq<u8> {
    blake2b_woss(tag_data() + spec_u64_to_le_bytes(chunk))
}

} // verus!
