//! End-to-end scenarios over the real RISC-V engine: the library's memory is
//! plugged into ckb-vm through a small adapter, machines run instruction by
//! instruction, and the commitments, proofs and verdicts are computed by the
//! library.

use ckb_vm::decoder::build_decoder;
use ckb_vm::machine::{DefaultCoreMachine, DefaultMachine, DefaultMachineBuilder, VERSION1};
use ckb_vm::{CoreMachine, Memory, Register, SupportMachine, ISA_IMC};

use woss::error::{Error, VmError};
use woss::lock::{check_step_commitments, expected_commitments, parse_lock_args};
use woss::machine::{
    commit_step, next_step, should_step, MachineState, RunResult, StepCommitment, StepProof,
};
use woss::memory::{MemoryProof, SMTMemory};
use woss::smt::{ProverSmt, SMTOps, SMTProve, VerifierSmt};

const MEMORY_SIZE: u64 = 4 << 20;

/// ADDI x1, x0, 5
const ADDI_X1_X0_5: u32 = 0x0050_0093;
/// ADDI x2, x1, 7
const ADDI_X2_X1_7: u32 = 0x0070_8113;

fn vm_error(e: VmError) -> ckb_vm::Error {
    match e {
        VmError::MemOutOfBound => ckb_vm::Error::MemOutOfBound,
        _ => ckb_vm::Error::Unexpected(String::from("tree operation failed")),
    }
}

struct SmtMem<S: SMTOps> {
    inner: SMTMemory<S>,
    lr: u32,
}

impl<S: SMTOps> Memory for SmtMem<S> {
    type REG = u32;

    fn new() -> Self {
        SmtMem { inner: SMTMemory::new(MEMORY_SIZE), lr: 0 }
    }

    fn new_with_memory(memory_size: usize) -> Self {
        // The library's constructor expects a page-aligned size within the
        // addressable space; fail loudly as a bad size is a caller bug.
        assert!(memory_size as u64 % woss::memory::RISCV_PAGESIZE == 0);
        assert!(memory_size as u64 <= woss::memory::RISCV_MAX_MEMORY);
        SmtMem { inner: SMTMemory::new(memory_size as u64), lr: 0 }
    }

    fn init_pages(
        &mut self,
        addr: u64,
        size: u64,
        _flags: u8,
        source: Option<ckb_vm::Bytes>,
        offset_from_addr: u64,
    ) -> Result<(), ckb_vm::Error> {
        ckb_vm::memory::fill_page_data(self, addr, size, source, offset_from_addr)
    }

    fn fetch_flag(&mut self, page: u64) -> Result<u8, ckb_vm::Error> {
        self.inner.fetch_flag(page).map_err(vm_error)
    }

    fn set_flag(&mut self, page: u64, flag: u8) -> Result<(), ckb_vm::Error> {
        self.inner.set_flag(page, flag).map_err(vm_error)
    }

    fn clear_flag(&mut self, page: u64, flag: u8) -> Result<(), ckb_vm::Error> {
        self.inner.clear_flag(page, flag).map_err(vm_error)
    }

    fn memory_size(&self) -> usize {
        self.inner.memory_size() as usize
    }

    fn store_byte(&mut self, addr: u64, size: u64, value: u8) -> Result<(), ckb_vm::Error> {
        self.inner.store_byte(addr, size, value).map_err(vm_error)
    }

    fn store_bytes(&mut self, addr: u64, value: &[u8]) -> Result<(), ckb_vm::Error> {
        self.inner.store_bytes(addr, value).map_err(vm_error)
    }

    fn load_bytes(&mut self, addr: u64, size: u64) -> Result<ckb_vm::Bytes, ckb_vm::Error> {
        self.inner
            .load_bytes(addr, size)
            .map(ckb_vm::Bytes::from)
            .map_err(vm_error)
    }

    fn execute_load16(&mut self, addr: u64) -> Result<u16, ckb_vm::Error> {
        self.inner.load16(addr).map(|v| v as u16).map_err(vm_error)
    }

    fn execute_load32(&mut self, addr: u64) -> Result<u32, ckb_vm::Error> {
        self.inner.load32(addr).map(|v| v as u32).map_err(vm_error)
    }

    fn load8(&mut self, addr: &u32) -> Result<u32, ckb_vm::Error> {
        self.inner.load8(addr.to_u64()).map(|v| v as u32).map_err(vm_error)
    }

    fn load16(&mut self, addr: &u32) -> Result<u32, ckb_vm::Error> {
        self.inner.load16(addr.to_u64()).map(|v| v as u32).map_err(vm_error)
    }

    fn load32(&mut self, addr: &u32) -> Result<u32, ckb_vm::Error> {
        self.inner.load32(addr.to_u64()).map(|v| v as u32).map_err(vm_error)
    }

    fn load64(&mut self, addr: &u32) -> Result<u32, ckb_vm::Error> {
        self.inner.load64(addr.to_u64()).map(|v| v as u32).map_err(vm_error)
    }

    fn store8(&mut self, addr: &u32, value: &u32) -> Result<(), ckb_vm::Error> {
        self.inner.store8(addr.to_u64(), value.to_u64()).map_err(vm_error)
    }

    fn store16(&mut self, addr: &u32, value: &u32) -> Result<(), ckb_vm::Error> {
        self.inner.store16(addr.to_u64(), value.to_u64()).map_err(vm_error)
    }

    fn store32(&mut self, addr: &u32, value: &u32) -> Result<(), ckb_vm::Error> {
        self.inner.store32(addr.to_u64(), value.to_u64()).map_err(vm_error)
    }

    fn store64(&mut self, addr: &u32, value: &u32) -> Result<(), ckb_vm::Error> {
        self.inner.store64(addr.to_u64(), value.to_u64()).map_err(vm_error)
    }

    fn lr(&self) -> &u32 {
        &self.lr
    }

    fn set_lr(&mut self, value: &u32) {
        self.lr = *value;
    }
}

struct TestMachine<S: SMTOps> {
    inner: DefaultMachine<DefaultCoreMachine<u32, SmtMem<S>>>,
    step: u64,
}

fn new_prover_machine() -> TestMachine<ProverSmt> {
    let core = DefaultCoreMachine::<u32, SmtMem<ProverSmt>>::new_with_memory(
        ISA_IMC,
        VERSION1,
        u64::MAX,
        MEMORY_SIZE as usize,
    );
    let inner = DefaultMachineBuilder::new(core).build();
    TestMachine { inner, step: 0 }
}

fn get_next_pc<S: SMTOps>(m: &mut TestMachine<S>) -> u64 {
    let backup = *m.inner.pc();
    m.inner.commit_pc();
    let next = *m.inner.pc();
    m.inner.update_pc(backup);
    next.to_u64()
}

fn machine_state<S: SMTOps>(m: &mut TestMachine<S>) -> MachineState {
    let registers: Vec<u64> = m.inner.registers().iter().map(|r| r.to_u64()).collect();
    let pc = m.inner.pc().to_u64();
    let next_pc = get_next_pc(m);
    let mem = m
        .inner
        .memory()
        .inner
        .commit_memory()
        .expect("prover memory always has a root");
    MachineState {
        registers,
        pc,
        next_pc,
        memory_size: mem.size,
        memory_root: mem.root,
        cycles: m.inner.cycles(),
        max_cycles: m.inner.max_cycles(),
        running: m.inner.running(),
        isa: m.inner.isa(),
        version: m.inner.version(),
        rbits: 32,
    }
}

fn commit_of<S: SMTOps>(m: &mut TestMachine<S>) -> StepCommitment {
    let state = machine_state(m);
    commit_step(&state, m.step)
}

fn run_until_step(m: &mut TestMachine<ProverSmt>, target: u64) -> RunResult {
    let mut decoder = build_decoder::<u32>(m.inner.isa(), m.inner.version());
    let mut step_commitments = vec![commit_of(m)];
    while should_step(m.inner.running(), m.step, target) {
        m.inner.step(&mut decoder).expect("step");
        m.step = next_step(m.step).expect("step counter overflow");
        step_commitments.push(commit_of(m));
    }
    RunResult { step_count: m.step, step_commitments }
}

fn prove_next_step(m: &mut TestMachine<ProverSmt>) -> StepProof {
    let mut decoder = build_decoder::<u32>(m.inner.isa(), m.inner.version());
    m.inner.memory_mut().inner.enable_tracer();

    let pre = machine_state(m);
    let step_num = m.step;

    m.inner.set_running(true);
    m.inner.step(&mut decoder).expect("step");
    m.step = next_step(m.step).expect("step counter overflow");

    let memory = m
        .inner
        .memory()
        .inner
        .prove_traces()
        .expect("tracing the step cannot fail")
        .expect("tracer enabled");
    m.inner.memory_mut().inner.disable_tracer();

    StepProof {
        step_num,
        registers: pre.registers,
        pc: pre.pc,
        next_pc: pre.next_pc,
        memory,
        cycles: pre.cycles,
        max_cycles: pre.max_cycles,
        running: pre.running,
        isa: pre.isa,
        version: pre.version,
        rbits: 32,
    }
}

fn restore_from_proof(proof: &StepProof) -> TestMachine<VerifierSmt> {
    let core = DefaultCoreMachine::<u32, SmtMem<VerifierSmt>>::new_with_memory(
        proof.isa,
        proof.version,
        proof.max_cycles,
        proof.memory.memory_size as usize,
    );
    let mut inner = DefaultMachineBuilder::new(core).build();
    for (idx, reg) in proof.registers.iter().enumerate() {
        inner.set_register(idx, *reg as u32);
    }
    inner.update_pc(proof.pc as u32);
    inner.commit_pc();
    inner.update_pc(proof.next_pc as u32);
    let memory_proof = clone_memory_proof(&proof.memory);
    inner
        .memory_mut()
        .inner
        .restore_from_proof(memory_proof)
        .expect("memory proof verifies");
    inner.set_cycles(proof.cycles);
    inner.set_running(proof.running);
    TestMachine { inner, step: proof.step_num }
}

fn clone_memory_proof(p: &MemoryProof) -> MemoryProof {
    MemoryProof {
        memory_size: p.memory_size,
        root: p.root.clone(),
        kvs: p.kvs.clone(),
        merkle_proof: p.merkle_proof.clone(),
    }
}

fn execute_next_step(m: &mut TestMachine<VerifierSmt>) -> StepCommitment {
    let mut decoder = build_decoder::<u32>(m.inner.isa(), m.inner.version());
    m.inner.set_running(true);
    m.inner.step(&mut decoder).expect("step");
    m.step = next_step(m.step).expect("step counter overflow");
    commit_of(m)
}

fn load_two_addis(m: &mut TestMachine<ProverSmt>) {
    let mut program: Vec<u8> = Vec::new();
    program.extend_from_slice(&ADDI_X1_X0_5.to_le_bytes());
    program.extend_from_slice(&ADDI_X2_X1_7.to_le_bytes());
    m.inner
        .memory_mut()
        .inner
        .store_bytes(0, &program)
        .expect("program fits");
}

#[test]
fn test_empty_program_runs_zero_steps() {
    let mut m = new_prover_machine();
    let result = run_until_step(&mut m, u64::MAX);
    assert_eq!(result.step_count, 0);
    assert_eq!(result.step_commitments.len(), 1);

    let mut fresh = new_prover_machine();
    let fresh_commitment = commit_of(&mut fresh);
    assert!(result.step_commitments[0] == fresh_commitment);
}

#[test]
fn test_two_step_arithmetic() {
    let mut m = new_prover_machine();
    load_two_addis(&mut m);
    m.inner.set_running(true);

    let r1 = run_until_step(&mut m, 1);
    assert_eq!(r1.step_count, 1);
    assert_eq!(m.inner.registers()[1].to_u64(), 5);
    assert_eq!(m.inner.registers()[2].to_u64(), 0);

    let r2 = run_until_step(&mut m, 2);
    assert_eq!(r2.step_count, 2);
    assert_eq!(m.inner.registers()[1].to_u64(), 5);
    assert_eq!(m.inner.registers()[2].to_u64(), 12);

    let s1 = &r1.step_commitments[1];
    let s2 = &r2.step_commitments[1];
    assert_eq!(s1.step_num, 1);
    assert_eq!(s2.step_num, 2);
    assert!(s1 != s2);
}

#[test]
fn test_prove_and_verify_one_step() {
    // Drive a prover to step 1 of the two-instruction program, prove the
    // transition to step 2, and replay it on a stateless verifier.
    let mut m = new_prover_machine();
    load_two_addis(&mut m);
    m.inner.set_running(true);
    let r = run_until_step(&mut m, 1);
    let s1 = r.step_commitments[1].clone();

    let proof = prove_next_step(&mut m);
    assert_eq!(proof.step_num, 1);
    let s2 = commit_of(&mut m);

    let mut verifier = restore_from_proof(&proof);
    let v1 = commit_of(&mut verifier);
    assert!(v1 == s1);

    let v2 = execute_next_step(&mut verifier);
    assert!(v2 == s2);

    // The state a verifier restores from the proof alone already commits to
    // the prover's pre-state commitment.
    let restored = woss::machine::proof_state(&proof);
    assert!(woss::machine::commit_state(&restored) == s1.commitment);
}

#[test]
fn test_lock_accepts_genuine_transition() {
    let mut m = new_prover_machine();
    load_two_addis(&mut m);
    m.inner.set_running(true);
    let r = run_until_step(&mut m, 1);
    let s1 = r.step_commitments[1].clone();
    let proof = prove_next_step(&mut m);
    let s2 = commit_of(&mut m);

    let mut args = s1.commitment.to_vec();
    args.extend_from_slice(&s2.commitment.to_vec());
    let (pre, post) = parse_lock_args(&args).expect("64-byte args");
    let (e1, e2) = expected_commitments(proof.step_num, pre, post).expect("step in range");

    let mut verifier = restore_from_proof(&proof);
    let v1 = commit_of(&mut verifier);
    let v2 = execute_next_step(&mut verifier);
    assert!(check_step_commitments(&v1, &v2, &e1, &e2).is_ok());
}

#[test]
fn test_lock_rejects_post_state_mismatch() {
    // A genuine proof, but the script arguments expect the pre-state twice:
    // the post-state check must fail with its own exit code.
    let mut m = new_prover_machine();
    load_two_addis(&mut m);
    m.inner.set_running(true);
    let r = run_until_step(&mut m, 1);
    let s1 = r.step_commitments[1].clone();
    let proof = prove_next_step(&mut m);

    let mut args = s1.commitment.to_vec();
    args.extend_from_slice(&s1.commitment.to_vec());
    let (pre, post) = parse_lock_args(&args).expect("64-byte args");
    let (e1, e2) = expected_commitments(proof.step_num, pre, post).expect("step in range");

    let mut verifier = restore_from_proof(&proof);
    let v1 = commit_of(&mut verifier);
    let v2 = execute_next_step(&mut verifier);
    let err = check_step_commitments(&v1, &v2, &e1, &e2).unwrap_err();
    assert_eq!(err, Error::MismatchNextStepCommitment);
    assert_eq!(err.exit_code(), 11);
}

#[test]
fn test_tampered_proof_is_rejected() {
    let mut m = new_prover_machine();
    load_two_addis(&mut m);
    m.inner.set_running(true);
    run_until_step(&mut m, 1);
    let proof = prove_next_step(&mut m);

    // Flip the value under the first touched key.
    let mut tampered = clone_memory_proof(&proof.memory);
    let key = tampered.kvs.key_at(0);
    let mut value = tampered.kvs.value_at(0).to_vec();
    value[0] ^= 0xff;
    tampered.kvs.insert(key, woss::bytes32::Bytes32::new(value).unwrap());

    let mut mem: SMTMemory<VerifierSmt> = SMTMemory::new(proof.memory.memory_size);
    assert!(mem.restore_from_proof(tampered).is_err());

    // The untouched proof still verifies.
    let mut mem2: SMTMemory<VerifierSmt> = SMTMemory::new(proof.memory.memory_size);
    assert!(mem2.restore_from_proof(clone_memory_proof(&proof.memory)).is_ok());
}

#[test]
fn test_commitments_are_deterministic() {
    let mut a = new_prover_machine();
    let mut b = new_prover_machine();
    load_two_addis(&mut a);
    load_two_addis(&mut b);
    a.inner.set_running(true);
    b.inner.set_running(true);
    let ra = run_until_step(&mut a, 2);
    let rb = run_until_step(&mut b, 2);
    assert_eq!(ra.step_commitments.len(), rb.step_commitments.len());
    for (x, y) in ra.step_commitments.iter().zip(rb.step_commitments.iter()) {
        assert!(x == y);
    }
}
