//! The machine state commitment and the step bookkeeping around it.
//!
//! A machine is committed by folding its registers, program counter, pending
//! program counter, memory size and root, cycle counters, running flag,
//! instruction set and version into one domain-separated digest.  The
//! commitment is a function of those observable fields alone, so two
//! machines that agree on them commit to the same value.

use vstd::prelude::*;
use vstd::bytes::{spec_u32_to_le_bytes, spec_u64_to_le_bytes};
use crate::bytes32::{lex_lt, Bytes32};
use crate::error::VmError;
use crate::hash::{
    blake2b256, blake2b_woss, push_bytes32, push_tag_cycles, push_tag_isa, push_tag_machine,
    push_tag_max_cycles, push_tag_memory, push_tag_next_pc, push_tag_pc, push_tag_registers,
    push_tag_running, push_tag_version, push_u32_le, push_u64_le, tag_cycles, tag_isa,
    tag_machine, tag_max_cycles, tag_memory, tag_next_pc, tag_pc, tag_registers, tag_running,
    tag_version,
};
use crate::memory::MemoryProof;

verus! {

/// A machine state commitment, labelled with the step it was taken at.
#[derive(Debug)]
pub struct StepCommitment {
    /// How many instructions had retired when the commitment was taken.
    pub step_num: u64,
    /// The state commitment.
    pub commitment: Bytes32,
}

impl StepCommitment {
    /// The total order on step commitments: first by step, then by the
    /// commitment bytes.
    pub open spec fn spec_lt(self, other: StepCommitment) -> bool {
        self.step_num < other.step_num || (self.step_num == other.step_num && lex_lt(
            self.commitment@,
            other.commitment@,
        ))
    }

    /// Whether `self` comes strictly before `other`.
    pub fn lt(&self, other: &StepCommitment) -> (r: bool)
        ensures
            r == self.spec_lt(*other),
    {
        if self.step_num < other.step_num {
            true
        } else if self.step_num == other.step_num {
            self.commitment.lt(&other.commitment)
        } else {
            false
        }
    }
}

/// The step-commitment order is transitive.
pub proof fn lemma_sc_lt_trans(a: StepCommitment, b: StepCommitment, c: StepCommitment)
    requires
        a.spec_lt(b),
        b.spec_lt(c),
        a.commitment@.len() == b.commitment@.len(),
        b.commitment@.len() == c.commitment@.len(),
    ensures
        a.spec_lt(c),
{
    if a.step_num == b.step_num && b.step_num == c.step_num {
        crate::bytes32::lemma_lex_lt_trans(a.commitment@, b.commitment@, c.commitment@);
    }
}

impl Clone for StepCommitment {
    /// Cloning keeps both fields.
    fn clone(&self) -> (r: Self)
        ensures
            r.step_num == self.step_num,
            r.commitment@ == self.commitment@,
    {
        StepCommitment { step_num: self.step_num, commitment: self.commitment.clone() }
    }
}

impl PartialEq for StepCommitment {
    fn eq(&self, other: &Self) -> (r: bool) {
        self.step_num == other.step_num && self.commitment.eq(&other.commitment)
    }
}

impl Eq for StepCommitment {}

impl vstd::std_specs::cmp::PartialEqSpecImpl for StepCommitment {
    open spec fn obeys_eq_spec() -> bool {
        true
    }

    open spec fn eq_spec(&self, other: &StepCommitment) -> bool {
        self.step_num == other.step_num && self.commitment@ == other.commitment@
    }
}

/// What a finished run reports: how far it stepped and the commitment taken
/// after every step, the initial state included.
pub struct RunResult {
    /// The step counter when the run stopped.
    pub step_count: u64,
    /// One commitment per visited state, starting with the initial one.
    pub step_commitments: Vec<StepCommitment>,
}

/// The observable machine state that the commitment folds.
pub struct MachineState {
    /// The 32 general registers, as 64-bit values.
    pub registers: Vec<u64>,
    /// The committed program counter.
    pub pc: u64,
    /// The pending program counter the next step will commit.
    pub next_pc: u64,
    /// The memory size in bytes.
    pub memory_size: u64,
    /// The memory tree root.
    pub memory_root: Bytes32,
    /// Cycles consumed so far.
    pub cycles: u64,
    /// The cycle budget.
    pub max_cycles: u64,
    /// Whether the machine is running.
    pub running: bool,
    /// The instruction-set flags.
    pub isa: u8,
    /// The engine version.
    pub version: u32,
    /// The register width in bits, 32 or 64.
    pub rbits: u32,
}

/// Everything needed to recreate the machine at one step, execute a single
/// instruction, and reach the next step.
#[derive(Debug)]
pub struct StepProof {
    /// The step the pre-state was at.
    pub step_num: u64,
    /// The 32 general registers of the pre-state.
    pub registers: Vec<u64>,
    /// The committed program counter of the pre-state.
    pub pc: u64,
    /// The pending program counter of the pre-state.
    pub next_pc: u64,
    /// The witness for every memory key the instruction touches.
    pub memory: MemoryProof,
    /// Cycles consumed in the pre-state.
    pub cycles: u64,
    /// The cycle budget.
    pub max_cycles: u64,
    /// Whether the pre-state was running.
    pub running: bool,
    /// The instruction-set flags.
    pub isa: u8,
    /// The engine version.
    pub version: u32,
    /// The register width in bits, 32 or 64.
    pub rbits: u32,
}

/// The bytes fed to the register digest from register `i` on: index, width,
/// value, each little-endian.
pub open spec fn registers_preimage(regs: Seq<u64>, rbits: u32, i: int) -> Seq<u8>
    decreases regs.len() - i,
{
    if i < 0 || i >= regs.len() {
        Seq::empty()
    } else {
        spec_u64_to_le_bytes(i as u64) + spec_u32_to_le_bytes(rbits) + spec_u64_to_le_bytes(
            regs[i],
        ) + registers_preimage(regs, rbits, i + 1)
    }
}

/// The digest of the register file.
pub open spec fn registers_digest(regs: Seq<u64>, rbits: u32) -> Seq<u8> {
    blake2b_woss(tag_registers() + registers_preimage(regs, rbits, 0))
}

/// The digest of the committed program counter.
pub open spec fn pc_digest(rbits: u32, pc: u64) -> Seq<u8> {
    blake2b_woss(tag_pc() + spec_u32_to_le_bytes(rbits) + spec_u64_to_le_bytes(pc))
}

/// The digest of the pending program counter.
pub open spec fn next_pc_digest(rbits: u32, next_pc: u64) -> Seq<u8> {
    blake2b_woss(tag_next_pc() + spec_u32_to_le_bytes(rbits) + spec_u64_to_le_bytes(next_pc))
}

/// The digest of the memory size and root.
pub open spec fn memory_digest(size: u64, root: Seq<u8>) -> Seq<u8> {
    blake2b_woss(tag_memory() + spec_u64_to_le_bytes(size) + root)
}

/// The digest of the cycle counter.
pub open spec fn cycles_digest(cycles: u64) -> Seq<u8> {
    blake2b_woss(tag_cycles() + spec_u64_to_le_bytes(cycles))
}

/// The digest of the cycle budget.
pub open spec fn max_cycles_digest(max_cycles: u64) -> Seq<u8> {
    blake2b_woss(tag_max_cycles() + spec_u64_to_le_bytes(max_cycles))
}

/// The digest of the running flag.
pub open spec fn running_digest(running: bool) -> Seq<u8> {
    blake2b_woss(
        tag_running() + seq![
            if running {
                1u8
            } else {
                0u8
            },
        ],
    )
}

/// The digest of the instruction-set flags.
pub open spec fn isa_digest(isa: u8) -> Seq<u8> {
    blake2b_woss(tag_isa() + seq![isa])
}

/// The digest of the engine version.
pub open spec fn version_digest(version: u32) -> Seq<u8> {
    blake2b_woss(tag_version() + spec_u32_to_le_bytes(version))
}

/// The machine state commitment: the digest over all field digests.  It is a
/// function of the observable fields alone.
pub open spec fn state_commitment(s: MachineState) -> Seq<u8> {
    blake2b_woss(
        tag_machine() + registers_digest(s.registers@, s.rbits) + pc_digest(s.rbits, s.pc)
            + next_pc_digest(s.rbits, s.next_pc) + memory_digest(s.memory_size, s.memory_root@)
            + cycles_digest(s.cycles) + max_cycles_digest(s.max_cycles) + running_digest(s.running)
            + isa_digest(s.isa) + version_digest(s.version),
    )
}

/// Hash the register file.
pub fn commit_registers(regs: &Vec<u64>, rbits: u32) -> (r: Bytes32)
    ensures
        r@ == registers_digest(regs@, rbits),
{
    let mut buf: Vec<u8> = Vec::new();
    push_tag_registers(&mut buf);
    let n = regs.len();
    let mut i: usize = 0;
    while i < n
        invariant
            0 <= i <= n,
            n == regs@.len(),
            buf@ + registers_preimage(regs@, rbits, i as int) == tag_registers()
                + registers_preimage(regs@, rbits, 0),
        decreases n - i,
    {
        let ghost pre = buf@;
        push_u64_le(&mut buf, i as u64);
        push_u32_le(&mut buf, rbits);
        push_u64_le(&mut buf, regs[i]);
        proof {
            let step = spec_u64_to_le_bytes(i as u64) + spec_u32_to_le_bytes(rbits)
                + spec_u64_to_le_bytes(regs@[i as int]);
            assert(buf@ =~= pre + step);
            assert(registers_preimage(regs@, rbits, i as int) == step + registers_preimage(
                regs@,
                rbits,
                i + 1,
            ));
            assert(pre + (step + registers_preimage(regs@, rbits, i + 1)) =~= (pre + step)
                + registers_preimage(regs@, rbits, i + 1));
        }
        i = i + 1;
    }
    proof {
        assert(buf@ + Seq::<u8>::empty() =~= buf@);
    }
    blake2b256(&buf)
}

/// Hash one labelled little-endian word: the tag, the register width, and
/// the value.
fn commit_counter_digest(state: &MachineState) -> (r: Bytes32)
    ensures
        r@ == pc_digest(state.rbits, state.pc),
{
    let mut buf: Vec<u8> = Vec::new();
    push_tag_pc(&mut buf);
    push_u32_le(&mut buf, state.rbits);
    push_u64_le(&mut buf, state.pc);
    proof {
        assert(buf@ =~= tag_pc() + spec_u32_to_le_bytes(state.rbits) + spec_u64_to_le_bytes(
            state.pc,
        ));
    }
    blake2b256(&buf)
}

/// Hash the machine state into its commitment.
pub fn commit_state(state: &MachineState) -> (r: Bytes32)
    ensures
        r@ == state_commitment(*state),
{
    let regs = commit_registers(&state.registers, state.rbits);
    let pc = commit_counter_digest(state);
    let next_pc = {
        let mut buf: Vec<u8> = Vec::new();
        push_tag_next_pc(&mut buf);
        push_u32_le(&mut buf, state.rbits);
        push_u64_le(&mut buf, state.next_pc);
        proof {
            assert(buf@ =~= tag_next_pc() + spec_u32_to_le_bytes(state.rbits)
                + spec_u64_to_le_bytes(state.next_pc));
        }
        blake2b256(&buf)
    };
    let memory = {
        let mut buf: Vec<u8> = Vec::new();
        push_tag_memory(&mut buf);
        push_u64_le(&mut buf, state.memory_size);
        push_bytes32(&mut buf, &state.memory_root);
        proof {
            assert(buf@ =~= tag_memory() + spec_u64_to_le_bytes(state.memory_size)
                + state.memory_root@);
        }
        blake2b256(&buf)
    };
    let cycles = {
        let mut buf: Vec<u8> = Vec::new();
        push_tag_cycles(&mut buf);
        push_u64_le(&mut buf, state.cycles);
        proof {
            assert(buf@ =~= tag_cycles() + spec_u64_to_le_bytes(state.cycles));
        }
        blake2b256(&buf)
    };
    let max_cycles = {
        let mut buf: Vec<u8> = Vec::new();
        push_tag_max_cycles(&mut buf);
        push_u64_le(&mut buf, state.max_cycles);
        proof {
            assert(buf@ =~= tag_max_cycles() + spec_u64_to_le_bytes(state.max_cycles));
        }
        blake2b256(&buf)
    };
    let running = {
        let mut buf: Vec<u8> = Vec::new();
        push_tag_running(&mut buf);
        buf.push(if state.running { 1u8 } else { 0u8 });
        proof {
            assert(buf@ =~= tag_running() + seq![
                if state.running {
                    1u8
                } else {
                    0u8
                },
            ]);
        }
        blake2b256(&buf)
    };
    let isa = {
        let mut buf: Vec<u8> = Vec::new();
        push_tag_isa(&mut buf);
        buf.push(state.isa);
        proof {
            assert(buf@ =~= tag_isa() + seq![state.isa]);
        }
        blake2b256(&buf)
    };
    let version = {
        let mut buf: Vec<u8> = Vec::new();
        push_tag_version(&mut buf);
        push_u32_le(&mut buf, state.version);
        proof {
            assert(buf@ =~= tag_version() + spec_u32_to_le_bytes(state.version));
        }
        blake2b256(&buf)
    };

    let mut buf: Vec<u8> = Vec::new();
    push_tag_machine(&mut buf);
    push_bytes32(&mut buf, &regs);
    push_bytes32(&mut buf, &pc);
    push_bytes32(&mut buf, &next_pc);
    push_bytes32(&mut buf, &memory);
    push_bytes32(&mut buf, &cycles);
    push_bytes32(&mut buf, &max_cycles);
    push_bytes32(&mut buf, &running);
    push_bytes32(&mut buf, &isa);
    push_bytes32(&mut buf, &version);
    proof {
        assert(buf@ =~= tag_machine() + regs@ + pc@ + next_pc@ + memory@ + cycles@ + max_cycles@
            + running@ + isa@ + version@);
        assert(tag_machine() + regs@ + pc@ + next_pc@ + memory@ + cycles@ + max_cycles@ + running@
            + isa@ + version@ =~= tag_machine() + registers_digest(state.registers@, state.rbits)
            + pc_digest(state.rbits, state.pc) + next_pc_digest(state.rbits, state.next_pc)
            + memory_digest(state.memory_size, state.memory_root@) + cycles_digest(state.cycles)
            + max_cycles_digest(state.max_cycles) + running_digest(state.running) + isa_digest(
            state.isa,
        ) + version_digest(state.version));
    }
    blake2b256(&buf)
}

/// The machine state commitment, labelled with the step it was taken at.
pub fn commit_step(state: &MachineState, step: u64) -> (r: StepCommitment)
    ensures
        r.step_num == step,
        r.commitment@ == state_commitment(*state),
{
    StepCommitment { step_num: step, commitment: commit_state(state) }
}

/// The step counter after one more retired instruction; overflow is fatal.
pub fn next_step(step: u64) -> (r: Result<u64, VmError>)
    ensures
        match r {
            Ok(n) => step < u64::MAX && n == step + 1,
            Err(e) => step == u64::MAX && e == VmError::StepOverflow,
        },
{
    if step < u64::MAX {
        Ok(step + 1)
    } else {
        Err(VmError::StepOverflow)
    }
}

/// Whether a run loop takes one more step: only while the machine runs and
/// the target step is not reached.
pub fn should_step(running: bool, step: u64, target: u64) -> (r: bool)
    ensures
        r == (running && step < target),
{
    running && step < target
}

/// The machine state a verifier reaches by restoring `proof`: every field
/// copied from the proof, the memory root being the proof's claimed root.
pub open spec fn proof_state_spec(proof: StepProof) -> MachineState {
    MachineState {
        registers: proof.registers,
        pc: proof.pc,
        next_pc: proof.next_pc,
        memory_size: proof.memory.memory_size,
        memory_root: proof.memory.root,
        cycles: proof.cycles,
        max_cycles: proof.max_cycles,
        running: proof.running,
        isa: proof.isa,
        version: proof.version,
        rbits: proof.rbits,
    }
}

/// The machine state a verifier restores from `proof`.
pub fn proof_state(proof: &StepProof) -> (r: MachineState)
    ensures
        r.registers@ == proof.registers@,
        r.pc == proof.pc,
        r.next_pc == proof.next_pc,
        r.memory_size == proof.memory.memory_size,
        r.memory_root@ == proof.memory.root@,
        r.cycles == proof.cycles,
        r.max_cycles == proof.max_cycles,
        r.running == proof.running,
        r.isa == proof.isa,
        r.version == proof.version,
        r.rbits == proof.rbits,
        state_commitment(r) == state_commitment(proof_state_spec(*proof)),
    {
    let mut registers: Vec<u64> = Vec::new();
    let mut i: usize = 0;
    let n = proof.registers.len();
    while i < n
        invariant
            0 <= i <= n,
            n == proof.registers@.len(),
            registers@ =~= proof.registers@.subrange(0, i as int),
        decreases n - i,
    {
        registers.push(proof.registers[i]);
        assert(registers@ =~= proof.registers@.subrange(0, i + 1));
        i = i + 1;
    }
    proof {
        assert(registers@ =~= proof.registers@);
    }
    let r = MachineState {
        registers,
        pc: proof.pc,
        next_pc: proof.next_pc,
        memory_size: proof.memory.memory_size,
        memory_root: proof.memory.root.clone(),
        cycles: proof.cycles,
        max_cycles: proof.max_cycles,
        running: proof.running,
        isa: proof.isa,
        version: proof.version,
        rbits: proof.rbits,
    };
    proof {
        lemma_commitment_deterministic(r, proof_state_spec(*proof));
    }
    r
}

/// Machines that agree on every observable field commit to the same value:
/// the commitment is deterministic in the state.
pub proof fn lemma_commitment_deterministic(a: MachineState, b: MachineState)
    requires
        a.registers@ == b.registers@,
        a.pc == b.pc,
        a.next_pc == b.next_pc,
        a.memory_size == b.memory_size,
        a.memory_root@ == b.memory_root@,
        a.cycles == b.cycles,
        a.max_cycles == b.max_cycles,
        a.running == b.running,
        a.isa == b.isa,
        a.version == b.version,
        a.rbits == b.rbits,
    ensures
        state_commitment(a) == state_commitment(b),
{
}

/// Prove/restore round trip: a machine restored from a step proof that was
/// taken from pre-state `pre` commits to exactly the commitment of `pre`.
pub proof fn lemma_prove_restore_round_trip(pre: MachineState, proof: StepProof)
    requires
        proof.registers@ == pre.registers@,
        proof.pc == pre.pc,
        proof.next_pc == pre.next_pc,
        proof.memory.memory_size == pre.memory_size,
        proof.memory.root@ == pre.memory_root@,
        proof.cycles == pre.cycles,
        proof.max_cycles == pre.max_cycles,
        proof.running == pre.running,
        proof.isa == pre.isa,
        proof.version == pre.version,
        proof.rbits == pre.rbits,
    ensures
        state_commitment(proof_state_spec(proof)) == state_commitment(pre),
{
    lemma_commitment_deterministic(proof_state_spec(proof), pre);
}

} // verus!
