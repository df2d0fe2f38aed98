//! The wire format: encoding is canonical and decoding accepts exactly it.

use woss::bytes32::Bytes32;
use woss::codec::{Pack, PackVec, Unpack};
use woss::kvlist::KvList;
use woss::machine::StepProof;
use woss::memory::MemoryProof;

fn sample_kvs() -> KvList {
    let mut kvs = KvList::new();
    kvs.insert(Bytes32::from_u64(7), Bytes32::from_u64(70));
    kvs.insert(Bytes32::from_u64(3), Bytes32::from_u64(30));
    kvs.insert(Bytes32::from_u64(5), Bytes32::from_u64(50));
    kvs
}

fn sample_memory_proof() -> MemoryProof {
    MemoryProof {
        memory_size: 4 << 20,
        root: Bytes32::from_u64(0xabcd),
        kvs: sample_kvs(),
        merkle_proof: vec![0x4c, 0x4f, 0x10],
    }
}

fn sample_step_proof(rbits: u32) -> StepProof {
    let mut registers: Vec<u64> = Vec::new();
    for i in 0..32u64 {
        registers.push(i * 3 + 1);
    }
    StepProof {
        step_num: 41,
        registers,
        pc: 0x1000,
        next_pc: 0x1004,
        memory: sample_memory_proof(),
        cycles: 9,
        max_cycles: u64::MAX,
        running: true,
        isa: 0,
        version: 1,
        rbits,
    }
}

#[test]
fn test_kvs_pack_is_count_then_sorted_pairs() {
    let kvs = sample_kvs();
    let bytes = kvs.pack_vec();
    assert_eq!(bytes.len(), 4 + 3 * 64);
    assert_eq!(&bytes[0..4], &[3, 0, 0, 0]);
    // Entries come sorted by key: 3, 5, 7 (little-endian in the first byte).
    assert_eq!(bytes[4], 3);
    assert_eq!(bytes[4 + 64], 5);
    assert_eq!(bytes[4 + 128], 7);
    // Each key is followed by its value.
    assert_eq!(bytes[4 + 32], 30);
    assert_eq!(bytes[4 + 64 + 32], 50);
}

#[test]
fn test_memory_proof_round_trip() {
    let p = sample_memory_proof();
    let bytes = p.pack();
    assert_eq!(bytes.len(), 8 + 32 + 4 + 3 * 64 + 4 + 3);

    let (q, next) = MemoryProof::unpack(&bytes, 0).expect("canonical bytes decode");
    assert_eq!(next, bytes.len());
    assert_eq!(q.memory_size, p.memory_size);
    assert!(q.root == p.root);
    assert_eq!(q.merkle_proof, p.merkle_proof);
    assert_eq!(q.kvs.len(), 3);
    for i in 0..3 {
        assert!(q.kvs.key_at(i) == p.kvs.key_at(i));
        assert!(q.kvs.value_at(i) == p.kvs.value_at(i));
    }
}

#[test]
fn test_step_proof_round_trip_both_widths() {
    for rbits in [32u32, 64u32] {
        let p = sample_step_proof(rbits);
        let bytes = p.pack();
        let expected_len =
            8 + 34 * (if rbits == 32 { 4 } else { 8 }) + (8 + 32 + 4 + 3 * 64 + 4 + 3) + 22;
        assert_eq!(bytes.len(), expected_len);

        let q = StepProof::unpack(&bytes, rbits).expect("canonical bytes decode");
        assert_eq!(q.step_num, p.step_num);
        assert_eq!(q.registers, p.registers);
        assert_eq!(q.pc, p.pc);
        assert_eq!(q.next_pc, p.next_pc);
        assert_eq!(q.cycles, p.cycles);
        assert_eq!(q.max_cycles, p.max_cycles);
        assert_eq!(q.running, p.running);
        assert_eq!(q.isa, p.isa);
        assert_eq!(q.version, p.version);
        assert_eq!(q.rbits, rbits);
        assert_eq!(q.memory.memory_size, p.memory.memory_size);
        assert!(q.memory.root == p.memory.root);

        // Re-encoding the decoded proof gives the same bytes.
        let again = q.pack();
        assert_eq!(again, bytes);
    }
}

#[test]
fn test_malformed_step_proofs_are_refused() {
    // Too short.
    assert!(StepProof::unpack(&vec![0u8; 10], 32).is_none());
    // Truncated tail.
    let p = sample_step_proof(32);
    let mut bytes = p.pack();
    bytes.pop();
    assert!(StepProof::unpack(&bytes, 32).is_none());
    // Trailing garbage.
    let mut bytes = p.pack();
    bytes.push(0);
    assert!(StepProof::unpack(&bytes, 32).is_none());
    // A running flag beyond a boolean.
    let mut bytes = p.pack();
    let at = bytes.len() - 6;
    bytes[at] = 2;
    assert!(StepProof::unpack(&bytes, 32).is_none());
    // Key-value pairs out of order are not canonical.
    let mut bytes = p.pack();
    let kvs_start = 8 + 34 * 4 + 8 + 32 + 4;
    bytes[kvs_start] = 9;
    assert!(StepProof::unpack(&bytes, 32).is_none());
}

#[test]
fn test_bytes32_unpack_reads_a_window() {
    let mut bytes: Vec<u8> = vec![0xee; 5];
    bytes.extend_from_slice(&Bytes32::from_u64(99).to_vec());
    let (b, next) = Bytes32::unpack(&bytes, 5).expect("32 bytes available");
    assert_eq!(next, 37);
    assert_eq!(b.to_u64(), 99);
    assert!(Bytes32::unpack(&bytes, 6).is_none());
}
