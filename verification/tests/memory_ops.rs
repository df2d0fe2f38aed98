//! Behavioral parity between the tree-backed memory and ckb-vm's flat
//! memory, over flags, loads and stores at pseudo-random addresses, sizes
//! and masks, including chunk and page boundary crossings.

use ckb_vm::{FlatMemory, Memory, Register};
use woss::memory::SMTMemory;
use woss::smt::ProverSmt;

const MEMORY_SIZE: usize = 4 << 20;
const PAGES: u64 = (MEMORY_SIZE as u64) / 4096;

/// A small deterministic generator, so the parity runs are reproducible.
struct Lcg(u64);

impl Lcg {
    fn next(&mut self) -> u64 {
        self.0 = self
            .0
            .wrapping_mul(6364136223846793005)
            .wrapping_add(1442695040888963407);
        self.0 >> 11
    }
}

fn new_pair() -> (SMTMemory<ProverSmt>, FlatMemory<u64>) {
    (
        SMTMemory::new(MEMORY_SIZE as u64),
        FlatMemory::<u64>::new_with_memory(MEMORY_SIZE),
    )
}

#[test]
fn test_flag() {
    let (mut smt_mem, mut flat_mem) = new_pair();
    let mut rng = Lcg(7);
    for _ in 0..50 {
        let page = rng.next() % PAGES;
        let flag = (rng.next() & 0xff) as u8;

        assert_eq!(
            smt_mem.fetch_flag(page).unwrap(),
            flat_mem.fetch_flag(page).unwrap()
        );
        smt_mem.set_flag(page, flag).unwrap();
        flat_mem.set_flag(page, flag).unwrap();
        assert_eq!(
            smt_mem.fetch_flag(page).unwrap(),
            flat_mem.fetch_flag(page).unwrap()
        );
        smt_mem.clear_flag(page, flag).unwrap();
        flat_mem.clear_flag(page, flag).unwrap();
        assert_eq!(
            smt_mem.fetch_flag(page).unwrap(),
            flat_mem.fetch_flag(page).unwrap()
        );
    }
}

#[test]
fn test_store8() {
    let (mut smt_mem, mut flat_mem) = new_pair();
    let mut rng = Lcg(8);
    for _ in 0..50 {
        let addr = rng.next() % (MEMORY_SIZE as u64);
        let value = rng.next() & 0xff;

        smt_mem.store8(addr, value).unwrap();
        flat_mem.store8(&addr, &value).unwrap();

        let page = addr / 4096;
        assert_eq!(
            smt_mem.fetch_flag(page).unwrap(),
            flat_mem.fetch_flag(page).unwrap()
        );
        assert_eq!(
            smt_mem.load8(addr).unwrap(),
            flat_mem.load8(&addr).unwrap().to_u64()
        );
    }
}

#[test]
fn test_store16() {
    let (mut smt_mem, mut flat_mem) = new_pair();
    let mut rng = Lcg(16);
    for _ in 0..50 {
        let addr = rng.next() % ((MEMORY_SIZE - 2) as u64);
        let value = rng.next() & 0xffff;

        smt_mem.store16(addr, value).unwrap();
        flat_mem.store16(&addr, &value).unwrap();
        assert_eq!(
            smt_mem.load16(addr).unwrap(),
            flat_mem.load16(&addr).unwrap().to_u64()
        );
    }
    // A load straddling a 32-byte chunk boundary.
    smt_mem.store16(31, 0xabcd).unwrap();
    flat_mem.store16(&31u64, &0xabcdu64).unwrap();
    assert_eq!(
        smt_mem.load16(31).unwrap(),
        flat_mem.load16(&31u64).unwrap().to_u64()
    );
}

#[test]
fn test_store32() {
    let (mut smt_mem, mut flat_mem) = new_pair();
    let mut rng = Lcg(32);
    for _ in 0..50 {
        let addr = rng.next() % ((MEMORY_SIZE - 4) as u64);
        let value = rng.next() & 0xffff_ffff;

        smt_mem.store32(addr, value).unwrap();
        flat_mem.store32(&addr, &value).unwrap();
        assert_eq!(
            smt_mem.load32(addr).unwrap(),
            flat_mem.load32(&addr).unwrap().to_u64()
        );
    }
}

#[test]
fn test_store64() {
    let (mut smt_mem, mut flat_mem) = new_pair();
    let mut rng = Lcg(64);
    for _ in 0..50 {
        let addr = rng.next() % ((MEMORY_SIZE - 8) as u64);
        let value = rng.next();

        smt_mem.store64(addr, value).unwrap();
        flat_mem.store64(&addr, &value).unwrap();
        assert_eq!(
            smt_mem.load64(addr).unwrap(),
            flat_mem.load64(&addr).unwrap().to_u64()
        );
    }
    // A store straddling a page boundary dirties both pages.
    smt_mem.store64(4092, 0x0102_0304_0506_0708).unwrap();
    flat_mem.store64(&4092u64, &0x0102_0304_0506_0708u64).unwrap();
    for page in 0..=1u64 {
        assert_eq!(
            smt_mem.fetch_flag(page).unwrap(),
            flat_mem.fetch_flag(page).unwrap()
        );
    }
}

#[test]
fn test_store_byte() {
    let (mut smt_mem, mut flat_mem) = new_pair();
    let mut rng = Lcg(9);
    for _ in 0..20 {
        let addr = rng.next() % ((MEMORY_SIZE - 100) as u64);
        let size = rng.next() % 101;
        let value = (rng.next() & 0xff) as u8;

        smt_mem.store_byte(addr, size, value).unwrap();
        flat_mem.store_byte(addr, size, value).unwrap();

        if size > 0 {
            for page in (addr / 4096)..=((addr + size - 1) / 4096) {
                assert_eq!(
                    smt_mem.fetch_flag(page).unwrap(),
                    flat_mem.fetch_flag(page).unwrap()
                );
            }
        }
        assert_eq!(
            smt_mem.load_bytes(addr, size).unwrap(),
            flat_mem.load_bytes(addr, size).unwrap().to_vec()
        );
    }
}

#[test]
fn test_store_bytes() {
    let (mut smt_mem, mut flat_mem) = new_pair();
    let mut rng = Lcg(10);
    for _ in 0..20 {
        let addr = rng.next() % ((MEMORY_SIZE - 100) as u64);
        let mut bytes = [0u8; 100];
        for b in bytes.iter_mut() {
            *b = (rng.next() & 0xff) as u8;
        }

        smt_mem.store_bytes(addr, &bytes).unwrap();
        flat_mem.store_bytes(addr, &bytes).unwrap();

        for page in (addr / 4096)..=((addr + 99) / 4096) {
            assert_eq!(
                smt_mem.fetch_flag(page).unwrap(),
                flat_mem.fetch_flag(page).unwrap()
            );
        }
        assert_eq!(
            smt_mem.load_bytes(addr, 100).unwrap(),
            flat_mem.load_bytes(addr, 100).unwrap().to_vec()
        );
    }
}

#[test]
fn test_out_of_bounds_is_refused() {
    let (mut smt_mem, _) = new_pair();
    assert!(smt_mem.load8((MEMORY_SIZE as u64)).is_err());
    assert!(smt_mem.load_bytes((MEMORY_SIZE as u64) - 1, 2).is_err());
    assert!(smt_mem.fetch_flag(PAGES).is_err());
    assert!(smt_mem.set_flag(PAGES, 1).is_err());
    assert!(smt_mem.clear_flag(PAGES, 1).is_err());
    assert!(smt_mem.load8((MEMORY_SIZE as u64) - 1).is_ok());
}

#[test]
fn test_keys_are_distinct_per_index() {
    let a = SMTMemory::<ProverSmt>::flag_key(0);
    let b = SMTMemory::<ProverSmt>::flag_key(1);
    let c = SMTMemory::<ProverSmt>::data_chunk_key(0);
    let d = SMTMemory::<ProverSmt>::data_chunk_key(32);
    let e = SMTMemory::<ProverSmt>::data_chunk_key(33);
    assert!(a != b);
    assert!(a != c);
    assert!(c != d);
    // Two addresses of the same chunk share a key.
    assert!(d == e);
}
