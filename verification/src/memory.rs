//! Byte-addressable RISC-V memory over a sparse Merkle tree.
//!
//! The tree holds two key families: a flag key per page, whose value's low
//! byte carries the page flags, and a data key per 32-byte chunk.  Every
//! access goes through a recording step, so that an enabled tracer sees the
//! pre-window value of each touched key exactly once.

use vstd::prelude::*;
use crate::bytes32::{zero32, Bytes32};
use crate::error::VmError;
use crate::hash::{blake2b256, data_key_spec, flag_key_spec, push_tag_data, push_tag_flag, push_u64_le};
use crate::kvlist::KvList;
use crate::smt::{compiled_root_of, empty_leaves, restored_leaves, SMTOps, SMTProve};

verus! {

/// The RISC-V page size in bytes.
pub const RISCV_PAGESIZE: u64 = 4096;

/// The largest memory the hosted machine addresses: 4 MB.
pub const RISCV_MAX_MEMORY: u64 = 0x40_0000;

/// The page flag marking a page written to.
pub const FLAG_DIRTY: u8 = 4;

/// The width of one data chunk, matching the hash width.
pub const DATA_CHUNK_SIZE: u64 = 32;

/// A memory state summarized for the machine commitment.
pub struct MemoryCommitment {
    /// The memory size in bytes.
    pub size: u64,
    /// The tree root over the whole memory.
    pub root: Bytes32,
}

/// A witness for the tree keys one measured window touched: their pre-window
/// values and a compiled multi-proof binding them to `root`.
#[derive(Debug)]
pub struct MemoryProof {
    /// The memory size of the machine the window ran on.
    pub memory_size: u64,
    /// The tree root before the window.
    pub root: Bytes32,
    /// Every touched key with its pre-window value.
    pub kvs: KvList,
    /// The compiled multi-proof for exactly those keys against `root`.
    pub merkle_proof: Vec<u8>,
}

impl MemoryProof {
    /// The key-value list is canonical.
    pub open spec fn wf(&self) -> bool {
        self.kvs.wf()
    }
}

/// A snapshot of the tree plus the keys touched since it was taken.
pub struct MemoryTracer<S> {
    smt_snap: S,
    kvs: KvList,
}

impl<S> MemoryTracer<S> {
    /// The snapshot the tracer was enabled over.
    pub closed spec fn spec_snap(&self) -> &S {
        &self.smt_snap
    }

    /// The touched keys with their pre-window values.
    pub closed spec fn spec_kvs(&self) -> &KvList {
        &self.kvs
    }

    /// A tracer over the given snapshot, with nothing touched yet.
    pub fn new(smt_snap: S) -> (r: Self)
        ensures
            *r.spec_snap() == smt_snap,
            r.spec_kvs().wf(),
            r.spec_kvs()@ == Map::<Seq<u8>, Seq<u8>>::empty(),
    {
        Self { smt_snap, kvs: KvList::new() }
    }
}

/// The byte-addressable memory surface over a tree `S`.
pub struct SMTMemory<S: SMTOps> {
    smt: S,
    tracer: Option<MemoryTracer<S>>,
    memory_size: u64,
    riscv_pages: u64,
}

/// The chunk value `s` with `d` written at byte offset `off`.
pub open spec fn overwrite(s: Seq<u8>, off: int, d: Seq<u8>) -> Seq<u8> {
    Seq::new(
        s.len(),
        |i: int|
            if off <= i < off + d.len() {
                d[i - off]
            } else {
                s[i]
            },
    )
}

/// The leaf map after writing `data` at byte address `addr`, chunk by chunk.
pub open spec fn store_bytes_spec(m: Map<Seq<u8>, Seq<u8>>, addr: int, data: Seq<u8>) -> Map<
    Seq<u8>,
    Seq<u8>,
>
    decreases data.len(),
{
    if data.len() <= 0 {
        m
    } else {
        let off = addr % 32;
        let n = if 32 - off < data.len() {
            32 - off
        } else {
            data.len() as int
        };
        let key = data_key_spec((addr / 32) as u64);
        let patched = overwrite(m[key], off, data.take(n));
        store_bytes_spec(m.insert(key, patched), addr + n, data.skip(n))
    }
}

/// The bytes read from `m` at byte address `addr`, chunk by chunk.
pub open spec fn read_bytes_spec(m: Map<Seq<u8>, Seq<u8>>, addr: int, len: int) -> Seq<u8>
    decreases len,
{
    if len <= 0 {
        Seq::empty()
    } else {
        let off = addr % 32;
        let n = if 32 - off < len {
            32 - off
        } else {
            len
        };
        let key = data_key_spec((addr / 32) as u64);
        m[key].subrange(off, off + n) + read_bytes_spec(m, addr + n, len - n)
    }
}

/// A flag leaf rebuilt with `mask` or-ed into the old low byte; the high
/// bytes of a flag leaf are always written back as zeros.
pub open spec fn flag_or(v: Seq<u8>, mask: u8) -> Seq<u8> {
    zero32().update(0, (v[0] | mask) as u8)
}

/// A flag leaf rebuilt with `mask` cleared from the old low byte; the high
/// bytes of a flag leaf are always written back as zeros.
pub open spec fn flag_and_not(v: Seq<u8>, mask: u8) -> Seq<u8> {
    zero32().update(0, (v[0] & !mask) as u8)
}

/// The leaf map after marking pages `lo..=hi` dirty.
pub open spec fn set_dirty_spec(m: Map<Seq<u8>, Seq<u8>>, lo: int, hi: int) -> Map<Seq<u8>, Seq<u8>>
    decreases hi + 1 - lo,
{
    if lo > hi {
        m
    } else {
        let key = flag_key_spec(lo as u64);
        set_dirty_spec(m.insert(key, flag_or(m[key], FLAG_DIRTY)), lo + 1, hi)
    }
}

/// A step that stays inside one 32-byte chunk: its last byte shares the
/// chunk of its first, and the byte just before it sits at most one chunk
/// back.
proof fn lemma_chunk_step(a: int, rs: int)
    requires
        a >= 0,
        1 <= rs <= 32 - a % 32,
    ensures
        (a + rs - 1) / 32 == a / 32,
        a > 0 ==> (a - 1) / 32 == if a % 32 == 0 {
            a / 32 - 1
        } else {
            a / 32
        },
{
    vstd::arithmetic::div_mod::lemma_fundamental_div_mod(a, 32);
    vstd::arithmetic::div_mod::lemma_fundamental_div_mod_converse(
        a + rs - 1,
        32,
        a / 32,
        a % 32 + rs - 1,
    );
    if a > 0 {
        if a % 32 == 0 {
            vstd::arithmetic::div_mod::lemma_fundamental_div_mod_converse(a - 1, 32, a / 32 - 1, 31);
        } else {
            vstd::arithmetic::div_mod::lemma_fundamental_div_mod_converse(
                a - 1,
                32,
                a / 32,
                a % 32 - 1,
            );
        }
    }
}

/// Whether an address range lies inside a memory of `memory_size` bytes.
pub open spec fn range_in_bounds(memory_size: u64, addr: u64, size: u64) -> bool {
    addr + size <= memory_size
}

/// Fail unless `addr..addr + offset` lies inside the memory.
pub fn check_addr(memory_size: u64, addr: u64, offset: u64) -> (r: Result<(), VmError>)
    ensures
        r is Ok <==> range_in_bounds(memory_size, addr, offset),
        r is Err ==> r == Result::<(), VmError>::Err(VmError::MemOutOfBound),
{
    if offset <= memory_size && addr <= memory_size - offset {
        Ok(())
    } else {
        Err(VmError::MemOutOfBound)
    }
}

impl<S: SMTOps> SMTMemory<S> {
    /// The internal well-formedness every operation preserves: the tree is
    /// sound, the geometry is consistent, and an enabled tracer holds the
    /// pre-window value of every touched key while untouched keys still have
    /// their snapshot value.
    pub closed spec fn wf(&self) -> bool {
        &&& self.smt.inv()
        &&& self.memory_size % RISCV_PAGESIZE as u64 == 0
        &&& self.memory_size <= RISCV_MAX_MEMORY as u64
        &&& self.riscv_pages == self.memory_size / (RISCV_PAGESIZE as u64)
        &&& match self.tracer {
            Some(t) => {
                &&& t.smt_snap.inv()
                &&& t.kvs.wf()
                &&& forall|k: Seq<u8>|
                    t.kvs@.dom().contains(k) ==> #[trigger] t.kvs@[k] == t.smt_snap.contents()[k]
                &&& forall|k: Seq<u8>|
                    !t.kvs@.dom().contains(k) ==> #[trigger] self.smt.contents()[k]
                        == t.smt_snap.contents()[k]
            },
            None => true,
        }
    }

    /// The value map the backing tree holds.
    pub closed spec fn contents(&self) -> Map<Seq<u8>, Seq<u8>> {
        self.smt.contents()
    }

    /// What a root query returns.
    pub closed spec fn root_result(&self) -> Option<Seq<u8>> {
        self.smt.root_result()
    }

    /// The memory size in bytes.
    pub closed spec fn mem_size(&self) -> u64 {
        self.memory_size
    }

    /// How many pages the memory has.
    pub closed spec fn pages(&self) -> u64 {
        self.riscv_pages
    }

    /// Whether a tracer is enabled.
    pub closed spec fn tracer_on(&self) -> bool {
        self.tracer is Some
    }

    /// The keys touched since the tracer was enabled, with their pre-window
    /// values.
    pub closed spec fn traced(&self) -> Map<Seq<u8>, Seq<u8>> {
        match self.tracer {
            Some(t) => t.kvs@,
            None => Map::empty(),
        }
    }

    /// The contents of the snapshot the tracer holds.
    pub closed spec fn snap_contents(&self) -> Map<Seq<u8>, Seq<u8>> {
        match self.tracer {
            Some(t) => t.smt_snap.contents(),
            None => self.smt.contents(),
        }
    }

    /// What a root query on the tracer's snapshot returns.
    pub closed spec fn snap_root_result(&self) -> Option<Seq<u8>> {
        match self.tracer {
            Some(t) => t.smt_snap.root_result(),
            None => self.smt.root_result(),
        }
    }

    /// All the memory state that plain operations leave alone.
    pub open spec fn same_shape(&self, other: &Self) -> bool {
        &&& self.mem_size() == other.mem_size()
        &&& self.pages() == other.pages()
        &&& self.tracer_on() == other.tracer_on()
        &&& self.tracer_on() ==> (self.snap_contents() == other.snap_contents()
            && self.snap_root_result() == other.snap_root_result())
    }

    /// A fresh memory of `memory_size` bytes, all zero, with no tracer.
    pub fn new(memory_size: u64) -> (r: Self)
        requires
            memory_size % RISCV_PAGESIZE as u64 == 0,
            memory_size <= RISCV_MAX_MEMORY as u64,
        ensures
            r.wf(),
            r.contents() == empty_leaves(),
            r.mem_size() == memory_size,
            r.pages() == memory_size / (RISCV_PAGESIZE as u64),
            !r.tracer_on(),
    {
        SMTMemory {
            smt: S::empty(),
            tracer: None,
            memory_size,
            riscv_pages: memory_size / RISCV_PAGESIZE,
        }
    }

    /// The memory size in bytes.
    pub fn memory_size(&self) -> (r: u64)
        ensures
            r == self.mem_size(),
    {
        self.memory_size
    }

    /// The tree key under which page `page` keeps its flag byte.
    pub fn flag_key(page: u64) -> (r: Bytes32)
        ensures
            r@ == flag_key_spec(page),
    {
        let mut buf: Vec<u8> = Vec::new();
        push_tag_flag(&mut buf);
        push_u64_le(&mut buf, page);
        proof {
            assert(buf@ =~= crate::hash::tag_flag() + vstd::bytes::spec_u64_to_le_bytes(page));
        }
        blake2b256(&buf)
    }

    /// The tree key of the 32-byte chunk holding address `addr`.
    pub fn data_chunk_key(addr: u64) -> (r: Bytes32)
        ensures
            r@ == data_key_spec(addr / DATA_CHUNK_SIZE as u64),
    {
        let idx = addr / DATA_CHUNK_SIZE;
        let mut buf: Vec<u8> = Vec::new();
        push_tag_data(&mut buf);
        push_u64_le(&mut buf, idx);
        proof {
            assert(buf@ =~= crate::hash::tag_data() + vstd::bytes::spec_u64_to_le_bytes(idx));
        }
        blake2b256(&buf)
    }

    /// The memory's size and current tree root.
    pub fn commit_memory(&self) -> (r: Result<MemoryCommitment, VmError>)
        requires
            self.wf(),
        ensures
            match r {
                Ok(c) => self.root_result() == Some(c.root@) && c.size == self.mem_size(),
                Err(_) => self.root_result() is None,
            },
    {
        let root = self.smt.root()?;
        Ok(MemoryCommitment { size: self.memory_size, root })
    }

    /// Record `key` in the tracer, if one is enabled and the key is new:
    /// the value recorded is the key's current value, which the invariant
    /// keeps equal to its value in the snapshot.
    fn record(&mut self, key: &Bytes32)
        requires
            old(self).wf(),
        ensures
            final(self).wf(),
            final(self).contents() == old(self).contents(),
            final(self).root_result() == old(self).root_result(),
            old(self).same_shape(&*final(self)),
            final(self).traced() == if old(self).tracer_on() && !old(self).traced().dom().contains(
                key@,
            ) {
                old(self).traced().insert(key@, old(self).contents()[key@])
            } else {
                old(self).traced()
            },
    {
        proof {
            use_type_invariant(key);
        }
        let mut tr: Option<MemoryTracer<S>> = None;
        core::mem::swap(&mut self.tracer, &mut tr);
        match tr {
            Some(mut t) => {
                if !t.kvs.contains_key(key) {
                    let value = self.smt.get(key);
                    t.kvs.insert(key.clone(), value);
                }
                self.tracer = Some(t);
            },
            None => {
                self.tracer = None;
            },
        }
    }

    /// Read the tree value under `key`, recording the touch.
    fn smt_get(&mut self, key: &Bytes32) -> (r: Bytes32)
        requires
            old(self).wf(),
        ensures
            final(self).wf(),
            r@ == old(self).contents()[key@],
            final(self).contents() == old(self).contents(),
            final(self).root_result() == old(self).root_result(),
            old(self).same_shape(&*final(self)),
            final(self).traced() == if old(self).tracer_on() && !old(self).traced().dom().contains(
                key@,
            ) {
                old(self).traced().insert(key@, old(self).contents()[key@])
            } else {
                old(self).traced()
            },
    {
        self.record(key);
        self.smt.get(key)
    }

    /// Write the tree value under `key`, recording the touch first.
    fn smt_update(&mut self, key: &Bytes32, value: &Bytes32)
        requires
            old(self).wf(),
        ensures
            final(self).wf(),
            final(self).contents() == old(self).contents().insert(key@, value@),
            old(self).same_shape(&*final(self)),
            final(self).traced() == if old(self).tracer_on() && !old(self).traced().dom().contains(
                key@,
            ) {
                old(self).traced().insert(key@, old(self).contents()[key@])
            } else {
                old(self).traced()
            },
    {
        self.record(key);
        proof {
            use_type_invariant(key);
        }
        self.smt.update(key, value);
    }

    /// The touched-key map after one touch of `key`.
    pub open spec fn traced_plus(self, key: Seq<u8>) -> Map<Seq<u8>, Seq<u8>> {
        if self.tracer_on() && !self.traced().dom().contains(key) {
            self.traced().insert(key, self.contents()[key])
        } else {
            self.traced()
        }
    }

    /// Read the flag byte of page `page`.
    pub fn fetch_flag(&mut self, page: u64) -> (r: Result<u8, VmError>)
        requires
            old(self).wf(),
        ensures
            final(self).wf(),
            old(self).same_shape(&*final(self)),
            final(self).contents() == old(self).contents(),
            final(self).root_result() == old(self).root_result(),
            match r {
                Ok(f) => page < old(self).pages() && f == old(self).contents()[flag_key_spec(
                    page,
                )][0] && final(self).traced() == old(self).traced_plus(flag_key_spec(page)),
                Err(e) => page >= old(self).pages() && e == VmError::MemOutOfBound && final(self).traced() == old(self).traced(),
            },
    {
        if page < self.riscv_pages {
            let key = Self::flag_key(page);
            let v = self.smt_get(&key);
            Ok(v.to_u8())
        } else {
            Err(VmError::MemOutOfBound)
        }
    }

    /// Or `flag` into the flag byte of page `page`.
    pub fn set_flag(&mut self, page: u64, flag: u8) -> (r: Result<(), VmError>)
        requires
            old(self).wf(),
        ensures
            final(self).wf(),
            old(self).same_shape(&*final(self)),
            final(self).root_result() == old(self).root_result() || r is Ok,
            match r {
                Ok(_) => page < old(self).pages() && final(self).contents() == old(self).contents().insert(
                    flag_key_spec(page),
                    flag_or(old(self).contents()[flag_key_spec(page)], flag),
                ) && final(self).traced() == old(self).traced_plus(flag_key_spec(page)),
                Err(e) => page >= old(self).pages() && e == VmError::MemOutOfBound && final(self).contents() == old(self).contents() && final(self).traced() == old(self).traced()
                    && final(self).root_result() == old(self).root_result(),
            },
    {
        if page < self.riscv_pages {
            let key = Self::flag_key(page);
            let cur = self.smt_get(&key);
            let nv = Bytes32::from_u8(cur.to_u8() | flag);
            self.smt_update(&key, &nv);
            Ok(())
        } else {
            Err(VmError::MemOutOfBound)
        }
    }

    /// Clear `flag` from the flag byte of page `page`.
    pub fn clear_flag(&mut self, page: u64, flag: u8) -> (r: Result<(), VmError>)
        requires
            old(self).wf(),
        ensures
            final(self).wf(),
            old(self).same_shape(&*final(self)),
            match r {
                Ok(_) => page < old(self).pages() && final(self).contents() == old(self).contents().insert(
                    flag_key_spec(page),
                    flag_and_not(old(self).contents()[flag_key_spec(page)], flag),
                ) && final(self).traced() == old(self).traced_plus(flag_key_spec(page)),
                Err(e) => page >= old(self).pages() && e == VmError::MemOutOfBound && final(self).contents() == old(self).contents() && final(self).traced() == old(self).traced()
                    && final(self).root_result() == old(self).root_result(),
            },
    {
        if page < self.riscv_pages {
            let key = Self::flag_key(page);
            let cur = self.smt_get(&key);
            let nv = Bytes32::from_u8(cur.to_u8() & !flag);
            self.smt_update(&key, &nv);
            Ok(())
        } else {
            Err(VmError::MemOutOfBound)
        }
    }

    /// Old touches are kept, with their values.
    pub open spec fn traced_monotone(&self, other: &Self) -> bool {
        forall|k: Seq<u8>|
            self.traced().dom().contains(k) ==> #[trigger] other.traced().dom().contains(k)
                && other.traced()[k] == self.traced()[k]
    }

    /// Every new touch is a data key of a chunk in `[lo, hi]`.
    pub open spec fn traced_grows_data(&self, other: &Self, lo: int, hi: int) -> bool {
        forall|k: Seq<u8>|
            #[trigger] other.traced().dom().contains(k) && !self.traced().dom().contains(k)
                ==> exists|c: int| lo <= c <= hi && k == #[trigger] data_key_spec(c as u64)
    }

    /// Every data key of chunks `[clo, chi]` stands in the trace: nothing
    /// the operation reads or writes escapes an enabled tracer.
    pub open spec fn traced_covers_data(&self, clo: int, chi: int) -> bool {
        forall|c: int|
            clo <= c <= chi ==> self.traced().dom().contains(#[trigger] data_key_spec(c as u64))
    }

    /// Every flag key of pages `[lo, hi]` stands in the trace.
    pub open spec fn traced_covers_flags(&self, lo: int, hi: int) -> bool {
        forall|p: int|
            lo <= p <= hi ==> self.traced().dom().contains(#[trigger] flag_key_spec(p as u64))
    }

    /// Read `data_size` bytes at `addr` into `buf[0..data_size]`.
    pub fn get_data(&mut self, addr: u64, buf: &mut Vec<u8>, data_size: u64) -> (r: Result<
        (),
        VmError,
    >)
        requires
            old(self).wf(),
            data_size <= old(buf)@.len(),
        ensures
            final(self).wf(),
            old(self).same_shape(&*final(self)),
            final(self).contents() == old(self).contents(),
            final(self).root_result() == old(self).root_result(),
            final(buf)@.len() == old(buf)@.len(),
            r is Ok <==> range_in_bounds(old(self).mem_size(), addr, data_size),
            r is Ok ==> final(buf)@.subrange(0, data_size as int) == read_bytes_spec(
                old(self).contents(),
                addr as int,
                data_size as int,
            ),
            forall|j: int|
                data_size <= j < old(buf)@.len() ==> #[trigger] final(buf)@[j] == old(buf)@[j],
            r is Err ==> final(buf)@ == old(buf)@ && final(self).traced() == old(self).traced(),
            old(self).traced_monotone(&*final(self)),
            old(self).traced_grows_data(
                &*final(self),
                addr as int / 32,
                (addr + data_size - 1) / 32,
            ),
            r is Ok && data_size > 0 && final(self).tracer_on() ==> final(self).traced_covers_data(
                addr as int / 32,
                (addr + data_size - 1) / 32,
            ),
    {
        check_addr(self.memory_size, addr, data_size)?;
        let ghost m0 = self.contents();
        let ghost whole = read_bytes_spec(m0, addr as int, data_size as int);
        let mut remain: u64 = data_size;
        let mut filled: usize = 0;
        let mut a: u64 = addr;
        while remain > 0
            invariant
                self.wf(),
                old(self).same_shape(&*self),
                self.contents() == m0,
                m0 == old(self).contents(),
                self.root_result() == old(self).root_result(),
                old(self).traced_monotone(&*self),
                old(self).traced_grows_data(&*self, addr as int / 32, (addr + data_size - 1) / 32),
                self.tracer_on() && filled > 0 ==> self.traced_covers_data(
                    addr as int / 32,
                    (addr + filled - 1) / 32,
                ),
                filled + remain == data_size,
                a == addr + filled,
                addr + data_size <= old(self).mem_size(),
                old(self).mem_size() <= RISCV_MAX_MEMORY as u64,
                buf@.len() == old(buf)@.len(),
                data_size <= buf@.len(),
                whole == read_bytes_spec(m0, addr as int, data_size as int),
                buf@.subrange(0, filled as int) + read_bytes_spec(m0, a as int, remain as int)
                    == whole,
                forall|j: int|
                    data_size <= j < old(buf)@.len() ==> #[trigger] buf@[j] == old(buf)@[j],
            decreases remain,
        {
            let chunk_key = Self::data_chunk_key(a);
            let chunk_offset = (a % DATA_CHUNK_SIZE) as usize;
            let avail = (DATA_CHUNK_SIZE as u64 as usize) - chunk_offset;
            let rs: usize = if (avail as u64) <= remain {
                avail
            } else {
                remain as usize
            };
            let ghost prefix = buf@.subrange(0, filled as int);
            let ghost pre_self = *self;
            let chunk = self.smt_get(&chunk_key);
            proof {
                use_type_invariant(&chunk);
                vstd::arithmetic::div_mod::lemma_div_is_ordered(addr as int, a as int, 32);
                vstd::arithmetic::div_mod::lemma_div_is_ordered(
                    a as int,
                    addr + data_size - 1,
                    32,
                );
                lemma_chunk_step(a as int, rs as int);
                if self.tracer_on() {
                    assert(self.traced().dom().contains(data_key_spec(a / 32)));
                    assert forall|c: int|
                        addr as int / 32 <= c <= (addr + filled + rs - 1) / 32 implies
                        self.traced().dom().contains(#[trigger] data_key_spec(c as u64)) by {
                        if filled > 0 && c <= (a - 1) as int / 32 {
                            assert(pre_self.traced().dom().contains(data_key_spec(c as u64)));
                        } else {
                            assert(c == a as int / 32);
                        }
                    }
                }
            }
            chunk.read_value(buf, filled, chunk_offset, rs);
            proof {
                assert(buf@.subrange(0, filled as int) =~= prefix);
                assert(buf@.subrange(filled as int, filled + rs) =~= chunk@.subrange(
                    chunk_offset as int,
                    chunk_offset + rs,
                ));
                assert(buf@.subrange(0, filled + rs) =~= prefix + buf@.subrange(
                    filled as int,
                    filled + rs,
                ));
                assert(read_bytes_spec(m0, a as int, remain as int) == chunk@.subrange(
                    chunk_offset as int,
                    chunk_offset + rs,
                ) + read_bytes_spec(m0, a + rs, remain - rs));
                assert((prefix + chunk@.subrange(chunk_offset as int, chunk_offset + rs))
                    + read_bytes_spec(m0, a + rs, remain - rs) =~= prefix + (chunk@.subrange(
                    chunk_offset as int,
                    chunk_offset + rs,
                ) + read_bytes_spec(m0, a + rs, remain - rs)));
            }
            filled = filled + rs;
            remain = remain - (rs as u64);
            a = a + (rs as u64);
        }
        proof {
            assert(read_bytes_spec(m0, a as int, 0) =~= Seq::<u8>::empty());
            assert(buf@.subrange(0, data_size as int) + Seq::<u8>::empty() =~= buf@.subrange(
                0,
                data_size as int,
            ));
        }
        Ok(())
    }

    /// Write `value` at byte address `addr`, chunk by chunk.
    pub fn update_data(&mut self, addr: u64, value: &[u8]) -> (r: Result<(), VmError>)
        requires
            old(self).wf(),
        ensures
            final(self).wf(),
            old(self).same_shape(&*final(self)),
            r is Ok <==> range_in_bounds(old(self).mem_size(), addr, value@.len() as u64),
            r is Ok ==> final(self).contents() == store_bytes_spec(
                old(self).contents(),
                addr as int,
                value@,
            ),
            r is Err ==> final(self).contents() == old(self).contents() && final(self).traced()
                == old(self).traced() && final(self).root_result() == old(self).root_result(),
            old(self).traced_monotone(&*final(self)),
            old(self).traced_grows_data(
                &*final(self),
                addr as int / 32,
                (addr + value@.len() - 1) / 32,
            ),
            r is Ok && value@.len() > 0 && final(self).tracer_on()
                ==> final(self).traced_covers_data(
                addr as int / 32,
                (addr + value@.len() - 1) / 32,
            ),
    {
        let vlen = value.len();
        check_addr(self.memory_size, addr, vlen as u64)?;
        let ghost m0 = self.contents();
        let ghost target = store_bytes_spec(m0, addr as int, value@);
        proof {
            assert(value@.skip(0) =~= value@);
        }
        let mut remain: usize = vlen;
        let mut wrote: usize = 0;
        let mut a: u64 = addr;
        while remain > 0
            invariant
                self.wf(),
                old(self).same_shape(&*self),
                old(self).traced_monotone(&*self),
                old(self).traced_grows_data(
                    &*self,
                    addr as int / 32,
                    (addr + value@.len() - 1) / 32,
                ),
                self.tracer_on() && wrote > 0 ==> self.traced_covers_data(
                    addr as int / 32,
                    (addr + wrote - 1) / 32,
                ),
                wrote + remain == value@.len(),
                a == addr + wrote,
                addr + value@.len() <= old(self).mem_size(),
                old(self).mem_size() <= RISCV_MAX_MEMORY as u64,
                m0 == old(self).contents(),
                self.root_result() == old(self).root_result() || wrote > 0,
                target == store_bytes_spec(m0, addr as int, value@),
                store_bytes_spec(self.contents(), a as int, value@.skip(wrote as int)) == target,
            decreases remain,
        {
            let chunk_key = Self::data_chunk_key(a);
            let chunk_offset = (a % DATA_CHUNK_SIZE) as usize;
            let avail = (DATA_CHUNK_SIZE as u64 as usize) - chunk_offset;
            let ws: usize = if avail <= remain {
                avail
            } else {
                remain
            };
            let ghost pre = self.contents();
            let ghost pre_self = *self;
            let mut chunk = self.smt_get(&chunk_key);
            proof {
                use_type_invariant(&chunk);
                vstd::arithmetic::div_mod::lemma_div_is_ordered(addr as int, a as int, 32);
                vstd::arithmetic::div_mod::lemma_div_is_ordered(
                    a as int,
                    addr + value@.len() - 1,
                    32,
                );
                lemma_chunk_step(a as int, ws as int);
                if self.tracer_on() {
                    assert(self.traced().dom().contains(data_key_spec(a / 32)));
                    assert forall|c: int|
                        addr as int / 32 <= c <= (addr + wrote + ws - 1) / 32 implies
                        self.traced().dom().contains(#[trigger] data_key_spec(c as u64)) by {
                        if wrote > 0 && c <= (a - 1) as int / 32 {
                            assert(pre_self.traced().dom().contains(data_key_spec(c as u64)));
                        } else {
                            assert(c == a as int / 32);
                        }
                    }
                }
            }
            chunk.write_value(vstd::slice::slice_subrange(value, wrote, wrote + ws), chunk_offset);
            self.smt_update(&chunk_key, &chunk);
            proof {
                let seg = value@.subrange(wrote as int, wrote + ws);
                let rest = value@.skip(wrote as int);
                assert(chunk@ =~= overwrite(pre[chunk_key@], chunk_offset as int, seg));
                assert(rest.take(ws as int) =~= seg);
                assert(rest.skip(ws as int) =~= value@.skip(wrote + ws));
                assert(store_bytes_spec(pre, a as int, rest) == store_bytes_spec(
                    self.contents(),
                    a + ws,
                    rest.skip(ws as int),
                ));
            }
            wrote = wrote + ws;
            remain = remain - ws;
            a = a + (ws as u64);
        }
        proof {
            assert(value@.skip(wrote as int) =~= Seq::<u8>::empty());
        }
        Ok(())
    }

    /// Every new touch is a flag key of a page in `[lo, hi]` or a data key
    /// of a chunk in `[clo, chi]`.
    pub open spec fn traced_grows_store(
        &self,
        other: &Self,
        lo: int,
        hi: int,
        clo: int,
        chi: int,
    ) -> bool {
        forall|k: Seq<u8>|
            #[trigger] other.traced().dom().contains(k) && !self.traced().dom().contains(k) ==> (
            exists|p: int| lo <= p <= hi && k == #[trigger] flag_key_spec(p as u64)) || (exists|
                c: int,
            | clo <= c <= chi && k == #[trigger] data_key_spec(c as u64))
    }

    /// The first page of the range starting at `addr`.
    pub open spec fn page_lo(addr: u64) -> int {
        addr as int / (RISCV_PAGESIZE as int)
    }

    /// The last page of `size` bytes starting at `addr`.
    pub open spec fn page_hi(addr: u64, size: u64) -> int {
        (addr + size - 1) / (RISCV_PAGESIZE as int)
    }

    /// Whether a store of `size` bytes at `addr` can go through: the range
    /// lies inside the addressable space and every page of it exists.
    pub open spec fn store_ok(&self, addr: u64, size: u64) -> bool {
        &&& addr + size <= RISCV_MAX_MEMORY
        &&& Self::page_hi(addr, size) < self.pages()
    }

    /// The contents after a store: the touched pages marked dirty, then the
    /// bytes written.
    pub open spec fn stored_contents(&self, addr: u64, size: u64, data: Seq<u8>) -> Map<
        Seq<u8>,
        Seq<u8>,
    > {
        store_bytes_spec(
            set_dirty_spec(self.contents(), Self::page_lo(addr), Self::page_hi(addr, size)),
            addr as int,
            data,
        )
    }

    /// Mark pages `lo..=hi` dirty, failing before any write if one of them
    /// does not exist.
    fn set_dirty(&mut self, lo: u64, hi: u64) -> (r: Result<(), VmError>)
        requires
            old(self).wf(),
            lo <= hi,
        ensures
            final(self).wf(),
            old(self).same_shape(&*final(self)),
            r is Ok <==> hi < old(self).pages(),
            r is Ok ==> final(self).contents() == set_dirty_spec(
                old(self).contents(),
                lo as int,
                hi as int,
            ),
            r is Err ==> final(self).contents() == old(self).contents() && final(self).traced()
                == old(self).traced() && final(self).root_result() == old(self).root_result(),
            old(self).traced_monotone(&*final(self)),
            forall|k: Seq<u8>|
                #[trigger] final(self).traced().dom().contains(k) && !old(self).traced().dom().contains(k) ==> exists|p: int|
                    lo <= p <= hi && k == #[trigger] flag_key_spec(p as u64),
            r is Ok && final(self).tracer_on() ==> final(self).traced_covers_flags(
                lo as int,
                hi as int,
            ),
    {
        if hi >= self.riscv_pages {
            return Err(VmError::MemOutOfBound);
        }
        let ghost m0 = self.contents();
        let ghost target = set_dirty_spec(m0, lo as int, hi as int);
        let mut p: u64 = lo;
        while p <= hi
            invariant
                self.wf(),
                old(self).same_shape(&*self),
                old(self).traced_monotone(&*self),
                forall|k: Seq<u8>|
                    #[trigger] self.traced().dom().contains(k) && !old(self).traced().dom().contains(k) ==> exists|q: int|
                        lo <= q <= hi && k == #[trigger] flag_key_spec(q as u64),
                self.tracer_on() ==> self.traced_covers_flags(lo as int, p as int - 1),
                lo <= p <= hi + 1,
                hi < self.pages(),
                self.pages() == old(self).pages(),
                m0 == old(self).contents(),
                target == set_dirty_spec(m0, lo as int, hi as int),
                set_dirty_spec(self.contents(), p as int, hi as int) == target,
            decreases hi + 1 - p,
        {
            let ghost pre_self = *self;
            let r = self.set_flag(p, FLAG_DIRTY);
            proof {
                assert(r is Ok);
                if self.tracer_on() {
                    assert(pre_self.tracer_on());
                    assert(pre_self.traced_covers_flags(lo as int, p as int - 1));
                    assert(self.traced().dom().contains(flag_key_spec(p)));
                    assert forall|q: int| lo <= q <= p implies self.traced().dom().contains(
                        #[trigger] flag_key_spec(q as u64),
                    ) by {
                        if q < p {
                            assert(pre_self.traced().dom().contains(flag_key_spec(q as u64)));
                        }
                    }
                }
            }
            p = p + 1;
        }
        Ok(())
    }

    /// Read `size` bytes at `addr` as a fresh vector.
    pub fn load_bytes(&mut self, addr: u64, size: u64) -> (r: Result<Vec<u8>, VmError>)
        requires
            old(self).wf(),
        ensures
            final(self).wf(),
            old(self).same_shape(&*final(self)),
            final(self).contents() == old(self).contents(),
            final(self).root_result() == old(self).root_result(),
            r is Ok <==> range_in_bounds(old(self).mem_size(), addr, size),
            r is Ok ==> r.unwrap()@ == read_bytes_spec(
                old(self).contents(),
                addr as int,
                size as int,
            ) && r.unwrap()@.len() == size,
            r is Err ==> final(self).traced() == old(self).traced(),
            old(self).traced_monotone(&*final(self)),
            old(self).traced_grows_data(&*final(self), addr as int / 32, (addr + size - 1) / 32),
            r is Ok && size > 0 && final(self).tracer_on() ==> final(self).traced_covers_data(
                addr as int / 32,
                (addr + size - 1) / 32,
            ),
    {
        check_addr(self.memory_size, addr, size)?;
        let mut buf: Vec<u8> = vec![0u8; size as usize];
        self.get_data(addr, &mut buf, size)?;
        proof {
            assert(buf@.subrange(0, size as int) =~= buf@);
        }
        Ok(buf)
    }

    /// Read one byte at `addr` as a register value.
    pub fn load8(&mut self, addr: u64) -> (r: Result<u64, VmError>)
        requires
            old(self).wf(),
        ensures
            final(self).wf(),
            old(self).same_shape(&*final(self)),
            final(self).contents() == old(self).contents(),
            final(self).root_result() == old(self).root_result(),
            r is Ok <==> range_in_bounds(old(self).mem_size(), addr, 1),
            r is Ok ==> r.unwrap() == read_bytes_spec(old(self).contents(), addr as int, 1)[0],
            old(self).traced_monotone(&*final(self)),
            old(self).traced_grows_data(&*final(self), addr as int / 32, addr as int / 32),
            r is Ok && final(self).tracer_on() ==> final(self).traced_covers_data(
                addr as int / 32,
                addr as int / 32,
            ),
    {
        let v = self.load_bytes(addr, 1)?;
        Ok(v[0] as u64)
    }

    /// Read two bytes at `addr`, little-endian, as a register value.
    pub fn load16(&mut self, addr: u64) -> (r: Result<u64, VmError>)
        requires
            old(self).wf(),
        ensures
            final(self).wf(),
            old(self).same_shape(&*final(self)),
            final(self).contents() == old(self).contents(),
            final(self).root_result() == old(self).root_result(),
            r is Ok <==> range_in_bounds(old(self).mem_size(), addr, 2),
            r is Ok ==> r.unwrap() == vstd::bytes::spec_u16_from_le_bytes(
                read_bytes_spec(old(self).contents(), addr as int, 2),
            ) as u64,
            old(self).traced_monotone(&*final(self)),
            old(self).traced_grows_data(&*final(self), addr as int / 32, (addr + 1) as int / 32),
            r is Ok && final(self).tracer_on() ==> final(self).traced_covers_data(
                addr as int / 32,
                (addr + 1) as int / 32,
            ),
    {
        let v = self.load_bytes(addr, 2)?;
        let x = vstd::bytes::u16_from_le_bytes(v.as_slice());
        Ok(x as u64)
    }

    /// Read four bytes at `addr`, little-endian, as a register value.
    pub fn load32(&mut self, addr: u64) -> (r: Result<u64, VmError>)
        requires
            old(self).wf(),
        ensures
            final(self).wf(),
            old(self).same_shape(&*final(self)),
            final(self).contents() == old(self).contents(),
            final(self).root_result() == old(self).root_result(),
            r is Ok <==> range_in_bounds(old(self).mem_size(), addr, 4),
            r is Ok ==> r.unwrap() == vstd::bytes::spec_u32_from_le_bytes(
                read_bytes_spec(old(self).contents(), addr as int, 4),
            ) as u64,
            old(self).traced_monotone(&*final(self)),
            old(self).traced_grows_data(&*final(self), addr as int / 32, (addr + 3) as int / 32),
            r is Ok && final(self).tracer_on() ==> final(self).traced_covers_data(
                addr as int / 32,
                (addr + 3) as int / 32,
            ),
    {
        let v = self.load_bytes(addr, 4)?;
        let x = vstd::bytes::u32_from_le_bytes(v.as_slice());
        Ok(x as u64)
    }

    /// Read eight bytes at `addr`, little-endian, as a register value.
    pub fn load64(&mut self, addr: u64) -> (r: Result<u64, VmError>)
        requires
            old(self).wf(),
        ensures
            final(self).wf(),
            old(self).same_shape(&*final(self)),
            final(self).contents() == old(self).contents(),
            final(self).root_result() == old(self).root_result(),
            r is Ok <==> range_in_bounds(old(self).mem_size(), addr, 8),
            r is Ok ==> r.unwrap() == vstd::bytes::spec_u64_from_le_bytes(
                read_bytes_spec(old(self).contents(), addr as int, 8),
            ),
            old(self).traced_monotone(&*final(self)),
            old(self).traced_grows_data(&*final(self), addr as int / 32, (addr + 7) as int / 32),
            r is Ok && final(self).tracer_on() ==> final(self).traced_covers_data(
                addr as int / 32,
                (addr + 7) as int / 32,
            ),
    {
        let v = self.load_bytes(addr, 8)?;
        let x = vstd::bytes::u64_from_le_bytes(v.as_slice());
        Ok(x)
    }

    /// Mark the touched pages dirty and write `value` at `addr`.
    pub fn store_bytes(&mut self, addr: u64, value: &[u8]) -> (r: Result<(), VmError>)
        requires
            old(self).wf(),
        ensures
            final(self).wf(),
            old(self).same_shape(&*final(self)),
            r is Ok <==> value@.len() == 0 || old(self).store_ok(addr, value@.len() as u64),
            r is Ok && value@.len() > 0 ==> final(self).contents() == old(self).stored_contents(
                addr,
                value@.len() as u64,
                value@,
            ),
            value@.len() == 0 ==> final(self).contents() == old(self).contents() && final(self).traced() == old(self).traced(),
            r is Err ==> final(self).contents() == old(self).contents() && final(self).traced()
                == old(self).traced() && final(self).root_result() == old(self).root_result(),
            old(self).traced_monotone(&*final(self)),
            old(self).traced_grows_store(
                &*final(self),
                Self::page_lo(addr),
                Self::page_hi(addr, value@.len() as u64),
                addr as int / 32,
                (addr + value@.len() - 1) / 32,
            ),
            r is Ok && value@.len() > 0 && final(self).tracer_on()
                ==> final(self).traced_covers_flags(
                Self::page_lo(addr),
                Self::page_hi(addr, value@.len() as u64),
            ) && final(self).traced_covers_data(
                addr as int / 32,
                (addr + value@.len() - 1) / 32,
            ),
    {
        let vlen = value.len();
        if vlen == 0 {
            return Ok(());
        }
        if !(addr <= RISCV_MAX_MEMORY && (vlen as u64) <= RISCV_MAX_MEMORY - addr) {
            return Err(VmError::MemOutOfBound);
        }
        let lo = addr / RISCV_PAGESIZE;
        let hi = (addr + (vlen as u64) - 1) / RISCV_PAGESIZE;
        proof {
            vstd::arithmetic::div_mod::lemma_div_is_ordered(
                addr as int,
                addr + vlen - 1,
                RISCV_PAGESIZE as int,
            );
        }
        self.set_dirty(lo, hi)?;
        proof {
            Self::lemma_page_bound(addr, vlen as u64, self.pages());
        }
        let ghost mid = *self;
        let r = self.update_data(addr, value);
        proof {
            assert(r is Ok);
            if self.tracer_on() {
                assert forall|p: int|
                    lo <= p <= hi implies self.traced().dom().contains(
                    #[trigger] flag_key_spec(p as u64),
                ) by {
                    assert(mid.traced().dom().contains(flag_key_spec(p as u64)));
                }
            }
        }
        Ok(())
    }

    /// Pages below the page bound keep the whole range inside the memory.
    proof fn lemma_page_bound(addr: u64, size: u64, pages: u64)
        requires
            size > 0,
            Self::page_hi(addr, size) < pages,
            addr + size <= RISCV_MAX_MEMORY,
        ensures
            addr + size <= pages * (RISCV_PAGESIZE as int),
    {
        let ps = RISCV_PAGESIZE as int;
        let hi = Self::page_hi(addr, size);
        vstd::arithmetic::div_mod::lemma_fundamental_div_mod(addr + size - 1, ps);
        assert(addr + size - 1 == ps * hi + ((addr + size - 1) % ps));
        assert((addr + size - 1) % ps < ps) by {
            vstd::arithmetic::div_mod::lemma_mod_bound(addr + size - 1, ps);
        }
        assert(ps * hi <= ps * (pages - 1)) by (nonlinear_arith)
            requires
                hi <= pages - 1,
                ps > 0,
        ;
        assert(ps * (pages - 1) == ps * pages - ps) by (nonlinear_arith);
        assert(ps * pages == pages * ps);
    }

    /// Mark the touched pages dirty and store a `size`-wide register value
    /// little-endian at `addr`.
    fn store_le_bytes(&mut self, addr: u64, data: Vec<u8>) -> (r: Result<(), VmError>)
        requires
            old(self).wf(),
            data@.len() > 0,
        ensures
            final(self).wf(),
            old(self).same_shape(&*final(self)),
            r is Ok <==> old(self).store_ok(addr, data@.len() as u64),
            r is Ok ==> final(self).contents() == old(self).stored_contents(
                addr,
                data@.len() as u64,
                data@,
            ),
            r is Err ==> final(self).contents() == old(self).contents() && final(self).traced()
                == old(self).traced() && final(self).root_result() == old(self).root_result(),
            old(self).traced_monotone(&*final(self)),
            old(self).traced_grows_store(
                &*final(self),
                Self::page_lo(addr),
                Self::page_hi(addr, data@.len() as u64),
                addr as int / 32,
                (addr + data@.len() - 1) / 32,
            ),
            r is Ok && final(self).tracer_on() ==> final(self).traced_covers_flags(
                Self::page_lo(addr),
                Self::page_hi(addr, data@.len() as u64),
            ) && final(self).traced_covers_data(
                addr as int / 32,
                (addr + data@.len() - 1) / 32,
            ),
    {
        self.store_bytes(addr, data.as_slice())
    }

    /// Store the low byte of `value` at `addr`.
    pub fn store8(&mut self, addr: u64, value: u64) -> (r: Result<(), VmError>)
        requires
            old(self).wf(),
        ensures
            final(self).wf(),
            old(self).same_shape(&*final(self)),
            r is Ok <==> old(self).store_ok(addr, 1),
            r is Ok && final(self).tracer_on() ==> final(self).traced_covers_flags(
                Self::page_lo(addr),
                Self::page_hi(addr, 1),
            ) && final(self).traced_covers_data(addr as int / 32, (addr + 1 - 1) / 32),
            r is Ok ==> final(self).contents() == old(self).stored_contents(
                addr,
                1,
                seq![value as u8],
            ),
            r is Err ==> final(self).contents() == old(self).contents() && final(self).traced()
                == old(self).traced() && final(self).root_result() == old(self).root_result(),
            old(self).traced_monotone(&*final(self)),
    {
        let mut data: Vec<u8> = Vec::new();
        data.push(value as u8);
        assert(data@ =~= seq![value as u8]);
        self.store_le_bytes(addr, data)
    }

    /// Store the low two bytes of `value` little-endian at `addr`.
    pub fn store16(&mut self, addr: u64, value: u64) -> (r: Result<(), VmError>)
        requires
            old(self).wf(),
        ensures
            final(self).wf(),
            old(self).same_shape(&*final(self)),
            r is Ok <==> old(self).store_ok(addr, 2),
            r is Ok && final(self).tracer_on() ==> final(self).traced_covers_flags(
                Self::page_lo(addr),
                Self::page_hi(addr, 2),
            ) && final(self).traced_covers_data(addr as int / 32, (addr + 2 - 1) / 32),
            r is Ok ==> final(self).contents() == old(self).stored_contents(
                addr,
                2,
                vstd::bytes::spec_u16_to_le_bytes(value as u16),
            ),
            r is Err ==> final(self).contents() == old(self).contents() && final(self).traced()
                == old(self).traced() && final(self).root_result() == old(self).root_result(),
            old(self).traced_monotone(&*final(self)),
    {
        let data = vstd::bytes::u16_to_le_bytes(value as u16);
        proof {
            vstd::bytes::lemma_auto_spec_u16_to_from_le_bytes();
        }
        self.store_le_bytes(addr, data)
    }

    /// Store the low four bytes of `value` little-endian at `addr`.
    pub fn store32(&mut self, addr: u64, value: u64) -> (r: Result<(), VmError>)
        requires
            old(self).wf(),
        ensures
            final(self).wf(),
            old(self).same_shape(&*final(self)),
            r is Ok <==> old(self).store_ok(addr, 4),
            r is Ok && final(self).tracer_on() ==> final(self).traced_covers_flags(
                Self::page_lo(addr),
                Self::page_hi(addr, 4),
            ) && final(self).traced_covers_data(addr as int / 32, (addr + 4 - 1) / 32),
            r is Ok ==> final(self).contents() == old(self).stored_contents(
                addr,
                4,
                vstd::bytes::spec_u32_to_le_bytes(value as u32),
            ),
            r is Err ==> final(self).contents() == old(self).contents() && final(self).traced()
                == old(self).traced() && final(self).root_result() == old(self).root_result(),
            old(self).traced_monotone(&*final(self)),
    {
        let data = vstd::bytes::u32_to_le_bytes(value as u32);
        proof {
            vstd::bytes::lemma_auto_spec_u32_to_from_le_bytes();
        }
        self.store_le_bytes(addr, data)
    }

    /// Store all eight bytes of `value` little-endian at `addr`.
    pub fn store64(&mut self, addr: u64, value: u64) -> (r: Result<(), VmError>)
        requires
            old(self).wf(),
        ensures
            final(self).wf(),
            old(self).same_shape(&*final(self)),
            r is Ok <==> old(self).store_ok(addr, 8),
            r is Ok && final(self).tracer_on() ==> final(self).traced_covers_flags(
                Self::page_lo(addr),
                Self::page_hi(addr, 8),
            ) && final(self).traced_covers_data(addr as int / 32, (addr + 8 - 1) / 32),
            r is Ok ==> final(self).contents() == old(self).stored_contents(
                addr,
                8,
                vstd::bytes::spec_u64_to_le_bytes(value),
            ),
            r is Err ==> final(self).contents() == old(self).contents() && final(self).traced()
                == old(self).traced() && final(self).root_result() == old(self).root_result(),
            old(self).traced_monotone(&*final(self)),
    {
        let data = vstd::bytes::u64_to_le_bytes(value);
        self.store_le_bytes(addr, data)
    }

    /// Fill `size` bytes at `addr` with `value`.
    pub fn store_byte(&mut self, addr: u64, size: u64, value: u8) -> (r: Result<(), VmError>)
        requires
            old(self).wf(),
        ensures
            final(self).wf(),
            old(self).same_shape(&*final(self)),
            r is Ok <==> size == 0 || old(self).store_ok(addr, size),
            r is Ok && size > 0 && final(self).tracer_on() ==> final(self).traced_covers_flags(
                Self::page_lo(addr),
                Self::page_hi(addr, size),
            ) && final(self).traced_covers_data(addr as int / 32, (addr + size - 1) / 32),
            r is Ok && size > 0 ==> final(self).contents() == old(self).stored_contents(
                addr,
                size,
                Seq::new(size as nat, |i: int| value),
            ),
            size == 0 ==> final(self).contents() == old(self).contents() && final(self).traced()
                == old(self).traced(),
            r is Err ==> final(self).contents() == old(self).contents() && final(self).traced()
                == old(self).traced() && final(self).root_result() == old(self).root_result(),
            old(self).traced_monotone(&*final(self)),
    {
        if size == 0 {
            return Ok(());
        }
        if !(addr <= RISCV_MAX_MEMORY && size <= RISCV_MAX_MEMORY - addr) {
            return Err(VmError::MemOutOfBound);
        }
        let data: Vec<u8> = vec![value; size as usize];
        proof {
            assert(data@ =~= Seq::new(size as nat, |i: int| value));
        }
        let r = self.store_le_bytes(addr, data);
        r
    }
}

impl<S: SMTProve> SMTMemory<S> {
    /// Snapshot the tree and start recording touched keys.
    pub fn enable_tracer(&mut self)
        requires
            old(self).wf(),
        ensures
            final(self).wf(),
            final(self).contents() == old(self).contents(),
            final(self).root_result() == old(self).root_result(),
            final(self).mem_size() == old(self).mem_size(),
            final(self).pages() == old(self).pages(),
            final(self).tracer_on(),
            final(self).traced() == Map::<Seq<u8>, Seq<u8>>::empty(),
            final(self).snap_contents() == old(self).contents(),
            final(self).snap_root_result() == old(self).root_result(),
    {
        let snap = self.smt.snap();
        self.tracer = Some(MemoryTracer::new(snap));
    }

    /// Drop the tracer and its snapshot.
    pub fn disable_tracer(&mut self)
        requires
            old(self).wf(),
        ensures
            final(self).wf(),
            final(self).contents() == old(self).contents(),
            final(self).root_result() == old(self).root_result(),
            final(self).mem_size() == old(self).mem_size(),
            final(self).pages() == old(self).pages(),
            !final(self).tracer_on(),
    {
        self.tracer = None;
    }

    /// Touched keys carry their snapshot values.
    pub proof fn lemma_traced_values(&self)
        requires
            self.wf(),
        ensures
            forall|k: Seq<u8>|
                self.traced().dom().contains(k) ==> #[trigger] self.traced()[k]
                    == self.snap_contents()[k],
    {
    }

    /// Emit a memory proof for the keys touched since the tracer was
    /// enabled: their pre-window values and a compiled multi-proof against
    /// the snapshot's root.  Without a tracer there is nothing to prove; an
    /// enabled tracer that saw no touch at all is refused, since a
    /// multi-proof needs at least one key.
    pub fn prove_traces(&self) -> (r: Result<Option<MemoryProof>, VmError>)
        requires
            self.wf(),
        ensures
            r == Result::<Option<MemoryProof>, VmError>::Ok(None) <==> !self.tracer_on(),
            r is Err ==> self.tracer_on(),
            self.tracer_on() && self.traced() == Map::<Seq<u8>, Seq<u8>>::empty() ==> r
                == Result::<Option<MemoryProof>, VmError>::Err(VmError::SmtError),
            self.tracer_on() ==> ((r is Ok) <==> (self.traced() != Map::<Seq<u8>, Seq<u8>>::empty()
                && self.snap_root_result() is Some && crate::smt::prove_ok(
                self.snap_contents(),
                self.traced().dom(),
            ))),
            match r {
                Ok(Some(proof)) => self.tracer_on() && proof.wf() && proof.kvs@ == self.traced()
                    && proof.memory_size == self.mem_size() && self.snap_root_result() == Some(
                    proof.root@,
                ) && compiled_root_of(proof.kvs@, proof.merkle_proof@) == Some(proof.root@) && (
                forall|k: Seq<u8>|
                    proof.kvs@.dom().contains(k) ==> #[trigger] proof.kvs@[k]
                        == self.snap_contents()[k]),
                Ok(None) => !self.tracer_on(),
                Err(_) => true,
            },
    {
        match &self.tracer {
            Some(t) => {
                if t.kvs.len() == 0 {
                    proof {
                        assert(t.kvs.entries() =~= Seq::<(Seq<u8>, Seq<u8>)>::empty());
                        assert(self.traced() =~= Map::<Seq<u8>, Seq<u8>>::empty());
                    }
                    return Err(VmError::SmtError);
                }
                proof {
                    crate::kvlist::lemma_map_of_dom(t.kvs.entries(), t.kvs.entries()[0].0);
                    assert(self.traced().dom().contains(t.kvs.entries()[0].0));
                    assert(self.traced() != Map::<Seq<u8>, Seq<u8>>::empty());
                }
                let root = match t.smt_snap.root() {
                    Ok(b) => b,
                    Err(e) => {
                        return Err(e);
                    },
                };
                let merkle_proof = match t.smt_snap.prove(&t.kvs) {
                    Ok(p) => p,
                    Err(e) => {
                        return Err(e);
                    },
                };
                Ok(
                    Some(
                        MemoryProof {
                            memory_size: self.memory_size,
                            root,
                            kvs: t.kvs.clone(),
                            merkle_proof,
                        },
                    ),
                )
            },
            None => Ok(None),
        }
    }
}

/// A tree that can be rebuilt from the leaves and compiled proof a memory
/// proof carries.
pub trait SMTRestore: SMTOps {
    /// Rebuild a tree from `proof`, verifying its leaves against its root.
    fn restore_from_proof(proof: MemoryProof) -> (r: Result<Self, VmError>)
        requires
            proof.wf(),
        ensures
            match r {
                Ok(s) => s.inv() && compiled_root_of(proof.kvs@, proof.merkle_proof@) == Some(
                    proof.root@,
                ) && s.contents() == restored_leaves(proof.kvs@) && s.root_result() == Some(
                    proof.root@,
                ),
                Err(_) => compiled_root_of(proof.kvs@, proof.merkle_proof@) != Some(proof.root@),
            },
    ;
}

impl SMTRestore for crate::smt::VerifierSmt {
    fn restore_from_proof(proof: MemoryProof) -> (r: Result<Self, VmError>) {
        let MemoryProof { memory_size: _, root, kvs, merkle_proof } = proof;
        crate::smt::VerifierSmt::from_parts(kvs, &root, merkle_proof)
    }
}

impl<S: SMTRestore> SMTMemory<S> {
    /// Replace the tree with one rebuilt from `proof`; any failure to verify
    /// the proof leaves the memory unchanged.  On success any tracer is
    /// dropped with its snapshot: the restored tree starts untraced.
    pub fn restore_from_proof(&mut self, proof: MemoryProof) -> (r: Result<(), VmError>)
        requires
            old(self).wf(),
            proof.wf(),
        ensures
            final(self).wf(),
            final(self).mem_size() == old(self).mem_size(),
            final(self).pages() == old(self).pages(),
            match r {
                Ok(_) => compiled_root_of(proof.kvs@, proof.merkle_proof@) == Some(proof.root@)
                    && final(self).contents() == restored_leaves(proof.kvs@) && final(self).root_result() == Some(proof.root@) && !final(self).tracer_on(),
                Err(_) => compiled_root_of(proof.kvs@, proof.merkle_proof@) != Some(proof.root@)
                    && final(self).contents() == old(self).contents() && final(self).root_result()
                    == old(self).root_result() && final(self).tracer_on() == old(self).tracer_on()
                    && final(self).traced() == old(self).traced() && (old(self).tracer_on()
                    ==> final(self).snap_contents() == old(self).snap_contents() && final(self).snap_root_result() == old(self).snap_root_result()),
            },
    {
        let smt = match S::restore_from_proof(proof) {
            Ok(s) => s,
            Err(e) => {
                return Err(e);
            },
        };
        self.smt = smt;
        self.tracer = None;
        Ok(())
    }
}

} // verus!
