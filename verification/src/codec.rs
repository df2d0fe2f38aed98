//! The step-proof wire format.
//!
//! A step proof travels as a flat little-endian record: the step number, the
//! 32 registers at the register width, both program counters, the memory
//! proof, the cycle counters, the running flag, the instruction set and the
//! version.  The memory proof carries its size, its root, the touched
//! key-value pairs behind a count, and the compiled multi-proof behind a
//! length.  Decoding accepts exactly the canonical bytes that encoding
//! produces: the key-value pairs must come strictly sorted.

use vstd::prelude::*;
use vstd::bytes::{
    spec_u32_from_le_bytes, spec_u32_to_le_bytes, spec_u64_from_le_bytes, spec_u64_to_le_bytes,
    u32_from_le_bytes, u64_from_le_bytes,
};
use vstd::slice::{slice_subrange, slice_to_vec};
use crate::bytes32::{lex_lt, Bytes32};
use crate::hash::{push_bytes32, push_u32_le, push_u64_le};
use crate::kvlist::KvList;
use crate::machine::StepProof;
use crate::memory::MemoryProof;

verus! {

/// One register or counter on the wire: 4 bytes at width 32, 8 at width 64.
pub open spec fn word_wire(rbits: u32, v: u64) -> Seq<u8> {
    if rbits == 32 {
        spec_u32_to_le_bytes(v as u32)
    } else {
        spec_u64_to_le_bytes(v)
    }
}

/// How many bytes one register takes on the wire.
pub open spec fn word_width(rbits: u32) -> int {
    if rbits == 32 {
        4
    } else {
        8
    }
}

/// The register file on the wire, from register `i` on.
pub open spec fn regs_wire(regs: Seq<u64>, rbits: u32, i: int) -> Seq<u8>
    decreases regs.len() - i,
{
    if i < 0 || i >= regs.len() {
        Seq::empty()
    } else {
        word_wire(rbits, regs[i]) + regs_wire(regs, rbits, i + 1)
    }
}

/// The key-value pairs on the wire, from entry `i` on.
pub open spec fn entries_wire(entries: Seq<(Seq<u8>, Seq<u8>)>, i: int) -> Seq<u8>
    decreases entries.len() - i,
{
    if i < 0 || i >= entries.len() {
        Seq::empty()
    } else {
        entries[i].0 + entries[i].1 + entries_wire(entries, i + 1)
    }
}

/// The running flag on the wire.
pub open spec fn bool_byte(b: bool) -> u8 {
    if b {
        1u8
    } else {
        0u8
    }
}

/// A value that has a wire encoding.
pub trait Pack {
    /// The encoded bytes.
    spec fn spec_pack(&self) -> Seq<u8>;

    /// Whether the value fits the format.
    spec fn pack_wf(&self) -> bool;

    /// Encode the value.
    fn pack(&self) -> (r: Vec<u8>)
        requires
            self.pack_wf(),
        ensures
            r@ == self.spec_pack(),
    ;
}

/// A list of values encoded behind a count.
pub trait PackVec {
    /// The encoded bytes: the element count, then every element.
    spec fn spec_pack_vec(&self) -> Seq<u8>;

    /// Whether the list fits the format.
    spec fn pack_vec_wf(&self) -> bool;

    /// Encode the list.
    fn pack_vec(&self) -> (r: Vec<u8>)
        requires
            self.pack_vec_wf(),
        ensures
            r@ == self.spec_pack_vec(),
    ;
}

impl Pack for Bytes32 {
    open spec fn spec_pack(&self) -> Seq<u8> {
        self@
    }

    open spec fn pack_wf(&self) -> bool {
        true
    }

    fn pack(&self) -> (r: Vec<u8>) {
        self.to_vec()
    }
}

impl PackVec for KvList {
    open spec fn spec_pack_vec(&self) -> Seq<u8> {
        spec_u32_to_le_bytes(self.entries().len() as u32) + entries_wire(self.entries(), 0)
    }

    open spec fn pack_vec_wf(&self) -> bool {
        self.entries().len() < 0x1_0000_0000
    }

    fn pack_vec(&self) -> (r: Vec<u8>) {
        let mut out: Vec<u8> = Vec::new();
        let n = self.len();
        push_u32_le(&mut out, n as u32);
        proof {
            assert(out@ =~= spec_u32_to_le_bytes(self.entries().len() as u32));
        }
        let mut i: usize = 0;
        while i < n
            invariant
                0 <= i <= n,
                n == self.entries().len(),
                out@ + entries_wire(self.entries(), i as int) == self.spec_pack_vec(),
            decreases n - i,
        {
            let ghost pre = out@;
            let key = self.key_at(i);
            let value = self.value_at(i);
            push_bytes32(&mut out, &key);
            push_bytes32(&mut out, &value);
            proof {
                let step = self.entries()[i as int].0 + self.entries()[i as int].1;
                assert(out@ =~= pre + step);
                assert(entries_wire(self.entries(), i as int) == step + entries_wire(
                    self.entries(),
                    i + 1,
                ));
                assert(pre + (step + entries_wire(self.entries(), i + 1)) =~= (pre + step)
                    + entries_wire(self.entries(), i + 1));
            }
            i = i + 1;
        }
        proof {
            assert(out@ + Seq::<u8>::empty() =~= out@);
        }
        out
    }
}

impl Pack for MemoryProof {
    open spec fn spec_pack(&self) -> Seq<u8> {
        spec_u64_to_le_bytes(self.memory_size) + self.root@ + self.kvs.spec_pack_vec()
            + spec_u32_to_le_bytes(self.merkle_proof@.len() as u32) + self.merkle_proof@
    }

    open spec fn pack_wf(&self) -> bool {
        self.kvs.pack_vec_wf() && self.merkle_proof@.len() < 0x1_0000_0000
    }

    fn pack(&self) -> (r: Vec<u8>) {
        let mut out: Vec<u8> = Vec::new();
        push_u64_le(&mut out, self.memory_size);
        push_bytes32(&mut out, &self.root);
        let mut kvs = self.kvs.pack_vec();
        out.append(&mut kvs);
        push_u32_le(&mut out, self.merkle_proof.len() as u32);
        let mut mp = slice_to_vec(self.merkle_proof.as_slice());
        out.append(&mut mp);
        proof {
            assert(out@ =~= self.spec_pack());
        }
        out
    }
}

/// Encode one wire word at the register width.
fn push_word(out: &mut Vec<u8>, rbits: u32, v: u64)
    requires
        rbits == 32 || rbits == 64,
    ensures
        final(out)@ == old(out)@ + word_wire(rbits, v),
{
    if rbits == 32 {
        push_u32_le(out, v as u32);
    } else {
        push_u64_le(out, v);
    }
}

impl Pack for StepProof {
    open spec fn spec_pack(&self) -> Seq<u8> {
        spec_u64_to_le_bytes(self.step_num) + regs_wire(self.registers@, self.rbits, 0)
            + word_wire(self.rbits, self.pc) + word_wire(self.rbits, self.next_pc)
            + self.memory.spec_pack() + spec_u64_to_le_bytes(self.cycles) + spec_u64_to_le_bytes(
            self.max_cycles,
        ) + seq![bool_byte(self.running)] + seq![self.isa] + spec_u32_to_le_bytes(self.version)
    }

    open spec fn pack_wf(&self) -> bool {
        &&& (self.rbits == 32 || self.rbits == 64)
        &&& self.registers@.len() == 32
        &&& self.memory.pack_wf()
        &&& self.rbits == 32 ==> {
            &&& self.pc < 0x1_0000_0000
            &&& self.next_pc < 0x1_0000_0000
            &&& forall|i: int|
                0 <= i < self.registers@.len() ==> #[trigger] self.registers@[i] < 0x1_0000_0000
        }
    }

    fn pack(&self) -> (r: Vec<u8>) {
        let mut out: Vec<u8> = Vec::new();
        push_u64_le(&mut out, self.step_num);
        let ghost header = out@;
        let n = self.registers.len();
        let mut i: usize = 0;
        while i < n
            invariant
                0 <= i <= n,
                n == self.registers@.len(),
                self.rbits == 32 || self.rbits == 64,
                out@ + regs_wire(self.registers@, self.rbits, i as int) == header + regs_wire(
                    self.registers@,
                    self.rbits,
                    0,
                ),
            decreases n - i,
        {
            let ghost pre = out@;
            push_word(&mut out, self.rbits, self.registers[i]);
            proof {
                let step = word_wire(self.rbits, self.registers@[i as int]);
                assert(regs_wire(self.registers@, self.rbits, i as int) == step + regs_wire(
                    self.registers@,
                    self.rbits,
                    i + 1,
                ));
                assert(pre + (step + regs_wire(self.registers@, self.rbits, i + 1)) =~= (pre
                    + step) + regs_wire(self.registers@, self.rbits, i + 1));
            }
            i = i + 1;
        }
        proof {
            assert(out@ + Seq::<u8>::empty() =~= out@);
        }
        push_word(&mut out, self.rbits, self.pc);
        push_word(&mut out, self.rbits, self.next_pc);
        let mut mem = self.memory.pack();
        out.append(&mut mem);
        push_u64_le(&mut out, self.cycles);
        push_u64_le(&mut out, self.max_cycles);
        out.push(if self.running { 1u8 } else { 0u8 });
        out.push(self.isa);
        push_u32_le(&mut out, self.version);
        proof {
            assert(out@ =~= self.spec_pack());
        }
        out
    }
}

/// A little-endian `u64` read at `at`.
pub open spec fn wire_u64_at(b: Seq<u8>, at: int) -> u64 {
    spec_u64_from_le_bytes(b.subrange(at, at + 8))
}

/// A little-endian `u32` read at `at`.
pub open spec fn wire_u32_at(b: Seq<u8>, at: int) -> u32 {
    spec_u32_from_le_bytes(b.subrange(at, at + 4))
}

/// A wire word read at `at`, at the register width.
pub open spec fn wire_word_at(b: Seq<u8>, at: int, rbits: u32) -> u64 {
    if rbits == 32 {
        wire_u32_at(b, at) as u64
    } else {
        wire_u64_at(b, at)
    }
}

/// The key of wire entry `i` in a pair region starting at `e0`.
pub open spec fn wire_entry_key(b: Seq<u8>, e0: int, i: int) -> Seq<u8> {
    b.subrange(e0 + 64 * i, e0 + 64 * i + 32)
}

/// The value of wire entry `i` in a pair region starting at `e0`.
pub open spec fn wire_entry_value(b: Seq<u8>, e0: int, i: int) -> Seq<u8> {
    b.subrange(e0 + 64 * i + 32, e0 + 64 * i + 64)
}

/// The `n` wire entries of a pair region starting at `e0`.
pub open spec fn wire_entries(b: Seq<u8>, e0: int, n: nat) -> Seq<(Seq<u8>, Seq<u8>)> {
    Seq::new(n, |i: int| (wire_entry_key(b, e0, i), wire_entry_value(b, e0, i)))
}

/// How many key-value pairs a memory proof at `at` claims.
pub open spec fn mp_kvs_count(b: Seq<u8>, at: int) -> int {
    wire_u32_at(b, at + 40) as int
}

/// Where the pair region of a memory proof at `at` ends.
pub open spec fn mp_kvs_end(b: Seq<u8>, at: int) -> int {
    at + 44 + 64 * mp_kvs_count(b, at)
}

/// How many multi-proof bytes a memory proof at `at` claims.
pub open spec fn mp_mlen(b: Seq<u8>, at: int) -> int {
    wire_u32_at(b, mp_kvs_end(b, at)) as int
}

/// Where a memory proof at `at` ends.
pub open spec fn mp_end(b: Seq<u8>, at: int) -> int {
    mp_kvs_end(b, at) + 4 + mp_mlen(b, at)
}

/// Whether the bytes at `at` hold a canonical memory proof: everything in
/// bounds and the pairs strictly sorted by key.
pub open spec fn mp_parse_ok(b: Seq<u8>, at: int) -> bool {
    &&& at + 44 <= b.len()
    &&& mp_kvs_end(b, at) + 4 <= b.len()
    &&& mp_end(b, at) <= b.len()
    &&& forall|p: int, q: int|
        0 <= p < q < mp_kvs_count(b, at) ==> lex_lt(
            #[trigger] wire_entry_key(b, at + 44, p),
            #[trigger] wire_entry_key(b, at + 44, q),
        )
}

/// A value that can be decoded from its wire encoding.
pub trait Unpack: Sized {
    /// Whether the bytes at `at` hold a value of this type.
    spec fn parse_ok(b: Seq<u8>, at: int) -> bool;

    /// What the decoded value and the following offset are.
    spec fn parses_to(b: Seq<u8>, at: int, v: Self, next: int) -> bool;

    /// Decode a value at `at`; exactly the canonical encodings are accepted.
    fn unpack(bytes: &Vec<u8>, at: usize) -> (r: Option<(Self, usize)>)
        requires
            at <= bytes@.len(),
        ensures
            match r {
                Some(pair) => Self::parse_ok(bytes@, at as int) && Self::parses_to(
                    bytes@,
                    at as int,
                    pair.0,
                    pair.1 as int,
                ) && at <= pair.1 <= bytes@.len(),
                None => !Self::parse_ok(bytes@, at as int),
            },
    ;
}

impl Unpack for Bytes32 {
    open spec fn parse_ok(b: Seq<u8>, at: int) -> bool {
        at + 32 <= b.len()
    }

    open spec fn parses_to(b: Seq<u8>, at: int, v: Self, next: int) -> bool {
        v@ == b.subrange(at, at + 32) && next == at + 32
    }

    fn unpack(bytes: &Vec<u8>, at: usize) -> (r: Option<(Self, usize)>) {
        let blen = bytes.len();
        if blen - at < 32 {
            return None;
        }
        let v = slice_to_vec(slice_subrange(bytes.as_slice(), at, at + 32));
        match Bytes32::new(v) {
            Some(b) => Some((b, at + 32)),
            None => None,
        }
    }
}

impl Unpack for MemoryProof {
    open spec fn parse_ok(b: Seq<u8>, at: int) -> bool {
        mp_parse_ok(b, at)
    }

    open spec fn parses_to(b: Seq<u8>, at: int, v: Self, next: int) -> bool {
        &&& v.memory_size == wire_u64_at(b, at)
        &&& v.root@ == b.subrange(at + 8, at + 40)
        &&& v.kvs.wf()
        &&& v.kvs.entries() == wire_entries(b, at + 44, mp_kvs_count(b, at) as nat)
        &&& v.merkle_proof@ == b.subrange(mp_kvs_end(b, at) + 4, mp_end(b, at))
        &&& next == mp_end(b, at)
    }

    fn unpack(bytes: &Vec<u8>, at: usize) -> (r: Option<(Self, usize)>) {
        let blen = bytes.len();
        if blen - at < 44 {
            return None;
        }
        let memory_size = u64_from_le_bytes(slice_subrange(bytes.as_slice(), at, at + 8));
        let root = match Bytes32::new(
            slice_to_vec(slice_subrange(bytes.as_slice(), at + 8, at + 40)),
        ) {
            Some(b) => b,
            None => {
                return None;
            },
        };
        let count = u32_from_le_bytes(slice_subrange(bytes.as_slice(), at + 40, at + 44));
        let e0 = at + 44;
        let pairs_bytes: u64 = 64u64 * (count as u64);
        if ((blen - e0) as u64) < pairs_bytes {
            return None;
        }
        let kvs_end = e0 + (pairs_bytes as usize);
        if blen - kvs_end < 4 {
            return None;
        }
        let mut kvs = KvList::new();
        let mut i: usize = 0;
        while i < count as usize
            invariant
                0 <= i <= count,
                e0 == at + 44,
                blen == bytes@.len(),
                count as int == mp_kvs_count(bytes@, at as int),
                e0 + 64 * (count as int) <= bytes@.len(),
                kvs.wf(),
                kvs.entries() == wire_entries(bytes@, e0 as int, i as nat),
                forall|p: int, q: int|
                    0 <= p < q < i ==> lex_lt(
                        #[trigger] wire_entry_key(bytes@, e0 as int, p),
                        #[trigger] wire_entry_key(bytes@, e0 as int, q),
                    ),
            decreases count - i,
        {
            let off = e0 + 64 * i;
            let key = match Bytes32::new(
                slice_to_vec(slice_subrange(bytes.as_slice(), off, off + 32)),
            ) {
                Some(b) => b,
                None => {
                    return None;
                },
            };
            let value = match Bytes32::new(
                slice_to_vec(slice_subrange(bytes.as_slice(), off + 32, off + 64)),
            ) {
                Some(b) => b,
                None => {
                    return None;
                },
            };
            proof {
                assert(key@ =~= wire_entry_key(bytes@, e0 as int, i as int));
                assert(value@ =~= wire_entry_value(bytes@, e0 as int, i as int));
            }
            if i > 0 {
                let prev = kvs.key_at(i - 1);
                proof {
                    assert(prev@ == wire_entry_key(bytes@, e0 as int, i as int - 1));
                }
                if !prev.lt(&key) {
                    // Not canonical: a key out of order or repeated.
                    proof {
                        assert(!lex_lt(
                            wire_entry_key(bytes@, e0 as int, i as int - 1),
                            wire_entry_key(bytes@, e0 as int, i as int),
                        ));
                        assert(e0 as int == at + 44);
                        let ghost cnt = mp_kvs_count(bytes@, at as int);
                        assert((i as int) < cnt);
                        assert(0 <= i as int - 1);
                        if mp_parse_ok(bytes@, at as int) {
                            assert(lex_lt(
                                wire_entry_key(bytes@, at + 44, i as int - 1),
                                wire_entry_key(bytes@, at + 44, i as int),
                            ));
                        }
                    }
                    return None;
                }
            }
            proof {
                assert forall|j: int| 0 <= j < i implies lex_lt(
                    #[trigger] wire_entry_key(bytes@, e0 as int, j),
                    wire_entry_key(bytes@, e0 as int, i as int),
                ) by {
                    if j < i - 1 {
                        crate::bytes32::lemma_lex_lt_trans(
                            wire_entry_key(bytes@, e0 as int, j),
                            wire_entry_key(bytes@, e0 as int, i as int - 1),
                            wire_entry_key(bytes@, e0 as int, i as int),
                        );
                    }
                }
                assert forall|j: int| 0 <= j < i implies lex_lt(
                    (#[trigger] kvs.entries()[j]).0,
                    key@,
                ) by {
                    assert(kvs.entries()[j].0 == wire_entry_key(bytes@, e0 as int, j));
                }
            }
            let ghost pre_entries = kvs.entries();
            kvs.insert(key, value);
            proof {
                assert(kvs.entries() =~= wire_entries(bytes@, e0 as int, (i + 1) as nat));
            }
            i = i + 1;
        }
        let mlen = u32_from_le_bytes(slice_subrange(bytes.as_slice(), kvs_end, kvs_end + 4));
        if ((blen - kvs_end - 4) as u64) < (mlen as u64) {
            return None;
        }
        let merkle_proof = slice_to_vec(slice_subrange(
            bytes.as_slice(),
            kvs_end + 4,
            kvs_end + 4 + (mlen as usize),
        ));
        Some((MemoryProof { memory_size, root, kvs, merkle_proof }, kvs_end + 4 + (mlen as usize)))
    }
}

/// Read one wire word at the register width.
fn read_word(bytes: &Vec<u8>, at: usize, rbits: u32) -> (r: u64)
    requires
        rbits == 32 || rbits == 64,
        at + word_width(rbits) <= bytes@.len(),
    ensures
        r == wire_word_at(bytes@, at as int, rbits),
{
    let n = bytes.len();
    assert(at + word_width(rbits) <= n);
    if rbits == 32 {
        u32_from_le_bytes(slice_subrange(bytes.as_slice(), at, at + 4)) as u64
    } else {
        u64_from_le_bytes(slice_subrange(bytes.as_slice(), at, at + 8))
    }
}

impl StepProof {
    /// Where the memory proof begins on the wire: after the step number and
    /// 34 words of registers and counters.
    pub open spec fn sp_mem_at(rbits: u32) -> int {
        8 + 34 * word_width(rbits)
    }

    /// Whether `b` holds exactly one canonical step proof at width `rbits`.
    pub open spec fn sp_parse_ok(b: Seq<u8>, rbits: u32) -> bool {
        &&& mp_parse_ok(b, Self::sp_mem_at(rbits))
        &&& mp_end(b, Self::sp_mem_at(rbits)) + 22 == b.len()
        &&& b[mp_end(b, Self::sp_mem_at(rbits)) + 16] <= 1
    }

    /// What every field of a decoded step proof is.
    pub open spec fn sp_parses_to(b: Seq<u8>, rbits: u32, p: StepProof) -> bool {
        let w = word_width(rbits);
        let m = Self::sp_mem_at(rbits);
        let e = mp_end(b, m);
        &&& p.step_num == wire_u64_at(b, 0)
        &&& p.registers@ == Seq::new(32, |i: int| wire_word_at(b, 8 + i * w, rbits))
        &&& p.pc == wire_word_at(b, 8 + 32 * w, rbits)
        &&& p.next_pc == wire_word_at(b, 8 + 33 * w, rbits)
        &&& p.memory.memory_size == wire_u64_at(b, m)
        &&& p.memory.root@ == b.subrange(m + 8, m + 40)
        &&& p.memory.kvs.wf()
        &&& p.memory.kvs.entries() == wire_entries(b, m + 44, mp_kvs_count(b, m) as nat)
        &&& p.memory.merkle_proof@ == b.subrange(mp_kvs_end(b, m) + 4, e)
        &&& p.cycles == wire_u64_at(b, e)
        &&& p.max_cycles == wire_u64_at(b, e + 8)
        &&& p.running == (b[e + 16] == 1)
        &&& p.isa == b[e + 17]
        &&& p.version == wire_u32_at(b, e + 18)
        &&& p.rbits == rbits
    }

    /// Decode a whole step proof at width `rbits`; exactly the canonical
    /// encodings are accepted, and every field of the result is pinned by
    /// the bytes.
    pub fn unpack(bytes: &Vec<u8>, rbits: u32) -> (r: Option<StepProof>)
        requires
            rbits == 32 || rbits == 64,
        ensures
            match r {
                Some(p) => Self::sp_parse_ok(bytes@, rbits) && Self::sp_parses_to(
                    bytes@,
                    rbits,
                    p,
                ),
                None => !Self::sp_parse_ok(bytes@, rbits),
            },
    {
        let w: usize = if rbits == 32 {
            4
        } else {
            8
        };
        let mem_at: usize = 8 + 34 * w;
        let blen = bytes.len();
        if blen < mem_at + 44 {
            return None;
        }
        let step_num = u64_from_le_bytes(slice_subrange(bytes.as_slice(), 0, 8));
        let mut registers: Vec<u64> = Vec::new();
        let mut i: usize = 0;
        while i < 32
            invariant
                0 <= i <= 32,
                rbits == 32 || rbits == 64,
                w == word_width(rbits),
                mem_at == Self::sp_mem_at(rbits),
                mem_at + 44 <= bytes@.len(),
                registers@ =~= Seq::new(
                    i as nat,
                    |j: int| wire_word_at(bytes@, 8 + j * (w as int), rbits),
                ),
            decreases 32 - i,
        {
            let v = read_word(bytes, 8 + i * w, rbits);
            registers.push(v);
            proof {
                assert(registers@ =~= Seq::new(
                    (i + 1) as nat,
                    |j: int| wire_word_at(bytes@, 8 + j * (w as int), rbits),
                ));
            }
            i = i + 1;
        }
        let pc = read_word(bytes, 8 + 32 * w, rbits);
        let next_pc = read_word(bytes, 8 + 33 * w, rbits);
        let (memory, e) = match MemoryProof::unpack(bytes, mem_at) {
            Some(x) => x,
            None => {
                return None;
            },
        };
        if blen - e != 22 {
            return None;
        }
        let cycles = u64_from_le_bytes(slice_subrange(bytes.as_slice(), e, e + 8));
        let max_cycles = u64_from_le_bytes(slice_subrange(bytes.as_slice(), e + 8, e + 16));
        let running_byte = bytes[e + 16];
        if running_byte > 1 {
            return None;
        }
        let isa = bytes[e + 17];
        let version = u32_from_le_bytes(slice_subrange(bytes.as_slice(), e + 18, e + 22));
        Some(
            StepProof {
                step_num,
                registers,
                pc,
                next_pc,
                memory,
                cycles,
                max_cycles,
                running: running_byte == 1,
                isa,
                version,
                rbits,
            },
        )
    }
}

/// The register region is one wire word per register.
proof fn lemma_regs_wire_len(regs: Seq<u64>, rbits: u32, i: int)
    requires
        0 <= i <= regs.len(),
        rbits == 32 || rbits == 64,
    ensures
        regs_wire(regs, rbits, i).len() == (regs.len() - i) * word_width(rbits),
    decreases regs.len() - i,
{
    vstd::bytes::lemma_auto_spec_u32_to_from_le_bytes();
    vstd::bytes::lemma_auto_spec_u64_to_from_le_bytes();
    if i < regs.len() {
        lemma_regs_wire_len(regs, rbits, i + 1);
        assert((regs.len() - i) * word_width(rbits) == word_width(rbits) + (regs.len() - (i + 1))
            * word_width(rbits)) by (nonlinear_arith);
    }
}

/// Register `j` sits `(j - i) * word_width` bytes into the region from `i`.
proof fn lemma_regs_wire_index(regs: Seq<u64>, rbits: u32, i: int, j: int)
    requires
        0 <= i <= j < regs.len(),
        rbits == 32 || rbits == 64,
    ensures
        regs_wire(regs, rbits, i).subrange(
            (j - i) * word_width(rbits),
            (j - i) * word_width(rbits) + word_width(rbits),
        ) == word_wire(rbits, regs[j]),
    decreases j - i,
{
    vstd::bytes::lemma_auto_spec_u32_to_from_le_bytes();
    vstd::bytes::lemma_auto_spec_u64_to_from_le_bytes();
    let w = word_width(rbits);
    let head = word_wire(rbits, regs[i]);
    let tail = regs_wire(regs, rbits, i + 1);
    lemma_regs_wire_len(regs, rbits, i + 1);
    if j == i {
        assert((head + tail).subrange(0, w) =~= head);
    } else {
        lemma_regs_wire_index(regs, rbits, i + 1, j);
        assert((head + tail).subrange((j - i) * w, (j - i) * w + w) =~= tail.subrange(
            (j - i - 1) * w,
            (j - i - 1) * w + w,
        ));
    }
}

/// The pair region is 64 bytes per entry.
proof fn lemma_entries_wire_len(entries: Seq<(Seq<u8>, Seq<u8>)>, i: int)
    requires
        0 <= i <= entries.len(),
        forall|j: int|
            0 <= j < entries.len() ==> ((#[trigger] entries[j]).0.len() == 32
                && entries[j].1.len() == 32),
    ensures
        entries_wire(entries, i).len() == (entries.len() - i) * 64,
    decreases entries.len() - i,
{
    if i < entries.len() {
        lemma_entries_wire_len(entries, i + 1);
    }
}

/// Entry `j` sits `(j - i) * 64` bytes into the region from `i`: its key,
/// then its value.
proof fn lemma_entries_wire_index(entries: Seq<(Seq<u8>, Seq<u8>)>, i: int, j: int)
    requires
        0 <= i <= j < entries.len(),
        forall|k: int|
            0 <= k < entries.len() ==> ((#[trigger] entries[k]).0.len() == 32
                && entries[k].1.len() == 32),
    ensures
        entries_wire(entries, i).subrange((j - i) * 64, (j - i) * 64 + 32) == entries[j].0,
        entries_wire(entries, i).subrange((j - i) * 64 + 32, (j - i) * 64 + 64) == entries[j].1,
    decreases j - i,
{
    let head = entries[i].0 + entries[i].1;
    let tail = entries_wire(entries, i + 1);
    lemma_entries_wire_len(entries, i + 1);
    if j == i {
        assert((head + tail).subrange(0, 32) =~= entries[i].0);
        assert((head + tail).subrange(32, 64) =~= entries[i].1);
    } else {
        lemma_entries_wire_index(entries, i + 1, j);
        assert((head + tail).subrange((j - i) * 64, (j - i) * 64 + 32) =~= tail.subrange(
            (j - i - 1) * 64,
            (j - i - 1) * 64 + 32,
        ));
        assert((head + tail).subrange((j - i) * 64 + 32, (j - i) * 64 + 64) =~= tail.subrange(
            (j - i - 1) * 64 + 32,
            (j - i - 1) * 64 + 64,
        ));
    }
}

/// A packed memory proof decodes back to itself wherever its bytes stand:
/// the encoding is canonical.
pub proof fn lemma_memory_proof_pack_parses(p: MemoryProof, b: Seq<u8>, at: int)
    requires
        p.pack_wf(),
        p.wf(),
        p.root@.len() == 32,
        0 <= at,
        at + p.spec_pack().len() <= b.len(),
        b.subrange(at, at + p.spec_pack().len()) == p.spec_pack(),
    ensures
        mp_kvs_count(b, at) == p.kvs.entries().len(),
        mp_end(b, at) == at + p.spec_pack().len(),
        mp_parse_ok(b, at),
        MemoryProof::parses_to(b, at, p, at + p.spec_pack().len()),
{
    vstd::bytes::lemma_auto_spec_u32_to_from_le_bytes();
    vstd::bytes::lemma_auto_spec_u64_to_from_le_bytes();
    let entries = p.kvs.entries();
    let n = entries.len() as int;
    lemma_entries_wire_len(entries, 0);
    let m = p.spec_pack();
    let total = m.len() as int;
    assert(total == 48 + 64 * n + p.merkle_proof@.len());
    assert forall|k: int| 0 <= k < total implies #[trigger] b[at + k] == m[k] by {
        assert(b.subrange(at, at + total)[k] == m[k]);
    }
    // The size field, the root, and the count field.
    assert forall|j: int| 0 <= j < 8 implies #[trigger] b[at + j] == spec_u64_to_le_bytes(
        p.memory_size,
    )[j] by {
        assert(b[at + j] == m[j]);
    }
    assert(b.subrange(at, at + 8) =~= spec_u64_to_le_bytes(p.memory_size));
    assert forall|j: int| 0 <= j < 32 implies #[trigger] b[at + 8 + j] == p.root@[j] by {
        assert(b[at + (8 + j)] == m[8 + j]);
        assert(m[8 + j] == p.root@[j]);
    }
    assert forall|i: int| 0 <= i < 32 implies #[trigger] b.subrange(at + 8, at + 40)[i]
        == p.root@[i] by {
        assert(b.subrange(at + 8, at + 40)[i] == b[at + 8 + i]);
    }
    assert(b.subrange(at + 8, at + 40) =~= p.root@);
    assert forall|j: int| 0 <= j < 4 implies #[trigger] b[at + 40 + j] == spec_u32_to_le_bytes(
        n as u32,
    )[j] by {
        assert(b[at + (40 + j)] == m[40 + j]);
        assert(m[40 + j] == p.kvs.spec_pack_vec()[j]);
        assert(p.kvs.spec_pack_vec()[j] == spec_u32_to_le_bytes(n as u32)[j]);
    }
    assert forall|i: int| 0 <= i < 4 implies #[trigger] b.subrange(at + 40, at + 44)[i]
        == spec_u32_to_le_bytes(n as u32)[i] by {
        assert(b.subrange(at + 40, at + 44)[i] == b[at + 40 + i]);
    }
    assert(b.subrange(at + 40, at + 44) =~= spec_u32_to_le_bytes(n as u32));
    assert(wire_u64_at(b, at) == p.memory_size);
    assert(wire_u32_at(b, at + 40) == n as u32);
    assert(mp_kvs_count(b, at) == n);
    // Each wire entry is the corresponding list entry.
    assert forall|i: int| 0 <= i < n implies wire_entry_key(b, at + 44, i) == (
    #[trigger] entries[i]).0 && wire_entry_value(b, at + 44, i) == entries[i].1 by {
        lemma_entries_wire_index(entries, 0, i);
        assert forall|j: int| 0 <= j < 32 implies #[trigger] b[at + 44 + 64 * i + j] == entries[i].0[j] by {
            assert(b[at + (44 + 64 * i + j)] == m[44 + 64 * i + j]);
            assert(m[44 + 64 * i + j] == entries_wire(entries, 0)[64 * i + j]);
            assert(entries_wire(entries, 0).subrange(64 * i, 64 * i + 32)[j] == entries_wire(
                entries,
                0,
            )[64 * i + j]);
        }
        assert forall|j: int| 0 <= j < 32 implies #[trigger] wire_entry_key(b, at + 44, i)[j]
            == entries[i].0[j] by {
            assert(wire_entry_key(b, at + 44, i)[j] == b[at + 44 + 64 * i + j]);
        }
        assert(wire_entry_key(b, at + 44, i) =~= entries[i].0);
        assert forall|j: int| 0 <= j < 32 implies #[trigger] b[at + 44 + 64 * i + 32 + j] == entries[i].1[j]
            by {
            assert(b[at + (44 + 64 * i + 32 + j)] == m[44 + 64 * i + 32 + j]);
            assert(m[44 + 64 * i + 32 + j] == entries_wire(entries, 0)[64 * i + 32 + j]);
            assert(entries_wire(entries, 0).subrange(64 * i + 32, 64 * i + 64)[j] == entries_wire(
                entries,
                0,
            )[64 * i + 32 + j]);
        }
        assert forall|j: int| 0 <= j < 32 implies #[trigger] wire_entry_value(b, at + 44, i)[j]
            == entries[i].1[j] by {
            assert(wire_entry_value(b, at + 44, i)[j] == b[at + 44 + 64 * i + 32 + j]);
        }
        assert(wire_entry_value(b, at + 44, i) =~= entries[i].1);
    }
    assert(wire_entries(b, at + 44, n as nat) =~= entries);
    // The multi-proof length and bytes.
    let ke = at + 44 + 64 * n;
    assert(mp_kvs_end(b, at) == ke);
    let mpb = p.merkle_proof@;
    assert forall|j: int| 0 <= j < 4 implies #[trigger] b[ke + j] == spec_u32_to_le_bytes(
        mpb.len() as u32,
    )[j] by {
        assert(b[at + (44 + 64 * n + j)] == m[44 + 64 * n + j]);
        assert(m[44 + 64 * n + j] == spec_u32_to_le_bytes(mpb.len() as u32)[j]);
    }
    assert forall|i: int| 0 <= i < 4 implies #[trigger] b.subrange(ke, ke + 4)[i]
        == spec_u32_to_le_bytes(mpb.len() as u32)[i] by {
        assert(b.subrange(ke, ke + 4)[i] == b[ke + i]);
    }
    assert(b.subrange(ke, ke + 4) =~= spec_u32_to_le_bytes(mpb.len() as u32));
    assert(wire_u32_at(b, ke) == mpb.len() as u32);
    assert(mp_mlen(b, at) == mpb.len());
    assert forall|j: int| 0 <= j < mpb.len() implies #[trigger] b[ke + 4 + j] == mpb[j] by {
        assert(b[at + (48 + 64 * n + j)] == m[48 + 64 * n + j]);
        assert(m[48 + 64 * n + j] == mpb[j]);
    }
    assert forall|i: int| 0 <= i < mpb.len() implies #[trigger] b.subrange(ke + 4, at + total)[i]
        == mpb[i] by {
        assert(b.subrange(ke + 4, at + total)[i] == b[ke + 4 + i]);
    }
    assert(b.subrange(ke + 4, at + total) =~= mpb);
    assert(mp_end(b, at) == at + total);
    // Sortedness carries over from the list.
    assert forall|x: int, y: int| 0 <= x < y < mp_kvs_count(b, at) implies lex_lt(
        #[trigger] wire_entry_key(b, at + 44, x),
        #[trigger] wire_entry_key(b, at + 44, y),
    ) by {
        assert(wire_entry_key(b, at + 44, x) == entries[x].0);
        assert(wire_entry_key(b, at + 44, y) == entries[y].0);
    }
    assert(mp_parse_ok(b, at));
}

/// A packed step proof decodes back to itself: the encoding is canonical,
/// and parsing it pins every field to the packed value.
pub proof fn lemma_step_proof_pack_parses(p: StepProof)
    requires
        p.pack_wf(),
        p.memory.wf(),
        p.memory.root@.len() == 32,
    ensures
        StepProof::sp_parse_ok(p.spec_pack(), p.rbits),
        StepProof::sp_parses_to(p.spec_pack(), p.rbits, p),
{
    vstd::bytes::lemma_auto_spec_u32_to_from_le_bytes();
    vstd::bytes::lemma_auto_spec_u64_to_from_le_bytes();
    let b = p.spec_pack();
    let w = word_width(p.rbits);
    let regs = p.registers@;
    lemma_regs_wire_len(regs, p.rbits, 0);
    let mem_at = StepProof::sp_mem_at(p.rbits);
    let mlen = p.memory.spec_pack().len() as int;
    assert(b.len() == mem_at + mlen + 22);
    assert(b.subrange(mem_at, mem_at + mlen) =~= p.memory.spec_pack());
    lemma_memory_proof_pack_parses(p.memory, b, mem_at);
    let e = mp_end(b, mem_at);
    assert(e == mem_at + mlen);
    // The fixed fields around the memory proof.
    assert(b.subrange(0, 8) =~= spec_u64_to_le_bytes(p.step_num));
    assert(p.step_num == wire_u64_at(b, 0));
    assert forall|i: int| 0 <= i < 32 implies wire_word_at(b, 8 + i * w, p.rbits) == regs[i] by {
        lemma_regs_wire_index(regs, p.rbits, 0, i);
        assert(b.subrange(8 + i * w, 8 + i * w + w) =~= regs_wire(regs, p.rbits, 0).subrange(
            i * w,
            i * w + w,
        ));
        assert(b.subrange(8 + i * w, 8 + i * w + w) == word_wire(p.rbits, regs[i]));
    }
    assert(regs =~= Seq::new(32, |i: int| wire_word_at(b, 8 + i * w, p.rbits)));
    assert(b.subrange(8 + 32 * w, 8 + 32 * w + w) =~= word_wire(p.rbits, p.pc));
    assert(b.subrange(8 + 33 * w, 8 + 33 * w + w) =~= word_wire(p.rbits, p.next_pc));
    assert(p.pc == wire_word_at(b, 8 + 32 * w, p.rbits));
    assert(p.next_pc == wire_word_at(b, 8 + 33 * w, p.rbits));
    assert(b.subrange(e, e + 8) =~= spec_u64_to_le_bytes(p.cycles));
    assert(b.subrange(e + 8, e + 16) =~= spec_u64_to_le_bytes(p.max_cycles));
    assert(b[e + 16] == bool_byte(p.running));
    assert(b[e + 17] == p.isa);
    assert(b.subrange(e + 18, e + 22) =~= spec_u32_to_le_bytes(p.version));
    assert(p.cycles == wire_u64_at(b, e));
    assert(p.max_cycles == wire_u64_at(b, e + 8));
    assert(p.version == wire_u32_at(b, e + 18));
    assert(StepProof::sp_parse_ok(b, p.rbits));
}

} // verus!
