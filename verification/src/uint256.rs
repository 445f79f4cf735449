//! The 256-bit modular multiplication precompile: the event that one call leaves behind,
//! the executor that performs the call against guest memory, the generator that turns
//! events into trace rows, and the constraints that every row has to meet.

use crate::bigint::{
    all_zero_bytes, bytes_all_zero, bytes_equal, le_value, lemma_le_value_injective,
    lemma_le_value_zero, lemma_words_value_positive, mul_mod_le_bytes, mul_mod_words, words_value,
};
use crate::utils::{
    all_zero, le_bytes_of_words, word_byte, words_all_zero, words_equal, words_to_bytes_le,
};
use std::collections::HashMap;
use vstd::prelude::*;

verus! {

/// The number of byte limbs of a 256-bit integer.
pub const NUM_PHYSICAL_LIMBS: usize = 32;

/// The number of words of a 256-bit integer.
pub const NUM_PHYSICAL_WORDS: usize = 8;

/// What a memory cell holds: its word, and the shard and clock of its last access.
#[derive(Debug, Clone, Copy, PartialEq, Eq)]
pub struct MemoryEntry {
    pub value: u32,
    pub shard: u32,
    pub timestamp: u32,
}

/// The record of one read access.
#[derive(Debug, Clone, Copy, PartialEq, Eq)]
pub struct MemoryReadRecord {
    pub value: u32,
    pub shard: u32,
    pub timestamp: u32,
    pub prev_shard: u32,
    pub prev_timestamp: u32,
}

/// The record of one write access.
#[derive(Debug, Clone, Copy, PartialEq, Eq)]
pub struct MemoryWriteRecord {
    pub value: u32,
    pub shard: u32,
    pub timestamp: u32,
    pub prev_value: u32,
    pub prev_shard: u32,
    pub prev_timestamp: u32,
}

/// What one call of the precompile leaves behind for the trace generator.
#[derive(Debug, Clone)]
pub struct Uint256MulEvent {
    pub shard: u32,
    pub clk: u32,
    pub x_ptr: u32,
    pub x: Vec<u32>,
    pub y_ptr: u32,
    pub y: Vec<u32>,
    pub modulus: Vec<u32>,
    pub x_memory_records: [MemoryWriteRecord; NUM_PHYSICAL_WORDS],
    pub y_memory_records: [MemoryReadRecord; NUM_PHYSICAL_WORDS],
    pub modulus_memory_records: [MemoryReadRecord; NUM_PHYSICAL_WORDS],
}

/// Why the executor refused a call.
#[derive(Debug, Clone, Copy, PartialEq, Eq)]
pub enum Uint256MulError {
    /// Every word of the modulus is zero.
    ModulusIsZero,
}

/// The state that a call of the precompile works on: the guest's word-addressed memory,
/// the current shard and clock, and the log of events of the shard.
pub struct SyscallContext {
    pub memory: HashMap<u32, MemoryEntry>,
    pub current_shard: u32,
    pub clk: u32,
    pub uint256_mul_events: Vec<Uint256MulEvent>,
}

/// The entry of a memory cell. A cell that was never written holds zero.
pub open spec fn entry_at(memory: Map<u32, MemoryEntry>, addr: u32) -> MemoryEntry {
    if memory.contains_key(addr) {
        memory[addr]
    } else {
        MemoryEntry { value: 0, shard: 0, timestamp: 0 }
    }
}

/// The `n` words that memory holds from `addr` on.
pub open spec fn words_at(memory: Map<u32, MemoryEntry>, addr: u32, n: nat) -> Seq<u32> {
    Seq::new(n, |k: int| entry_at(memory, (addr + 4 * k) as u32).value)
}

/// `a` is the address of one of the `n` words from `base` on.
pub open spec fn in_range(a: u32, base: u32, n: nat) -> bool {
    base <= a < base + 4 * n && (a - base) % 4 == 0
}

/// The record of a read, at shard `shard` and clock `clk`, of a cell that held `e`.
pub open spec fn read_record_of(e: MemoryEntry, shard: u32, clk: u32) -> MemoryReadRecord {
    MemoryReadRecord {
        value: e.value,
        shard,
        timestamp: clk,
        prev_shard: e.shard,
        prev_timestamp: e.timestamp,
    }
}

/// The record of a write of `value`, at shard `shard` and clock `clk`, to a cell that
/// held `e`.
pub open spec fn write_record_of(e: MemoryEntry, value: u32, shard: u32, clk: u32) -> MemoryWriteRecord {
    MemoryWriteRecord {
        value,
        shard,
        timestamp: clk,
        prev_value: e.value,
        prev_shard: e.shard,
        prev_timestamp: e.timestamp,
    }
}

impl SyscallContext {
    /// A context with empty memory and an empty event log.
    pub fn new(current_shard: u32, clk: u32) -> (rt: Self)
        ensures
            rt.memory@ == Map::<u32, MemoryEntry>::empty(),
            rt.current_shard == current_shard,
            rt.clk == clk,
            rt.uint256_mul_events@.len() == 0,
    {
        SyscallContext {
            memory: HashMap::new(),
            current_shard,
            clk,
            uint256_mul_events: Vec::new(),
        }
    }

    /// The word at `addr`, read without a record.
    pub fn word(&self, addr: u32) -> (value: u32)
        ensures
            value == entry_at(self.memory@, addr).value,
    {
        broadcast use vstd::std_specs::hash::group_hash_axioms;

        match self.memory.get(&addr) {
            Some(entry) => entry.value,
            None => 0,
        }
    }

    /// Stores `value` at `addr` as the guest's program loader does: the cell counts as
    /// never accessed.
    pub fn store(&mut self, addr: u32, value: u32)
        ensures
            final(self).memory@ == old(self).memory@.insert(
                addr,
                MemoryEntry { value, shard: 0, timestamp: 0 },
            ),
            final(self).current_shard == old(self).current_shard,
            final(self).clk == old(self).clk,
            final(self).uint256_mul_events == old(self).uint256_mul_events,
    {
        broadcast use vstd::std_specs::hash::group_hash_axioms;

        self.memory.insert(addr, MemoryEntry { value, shard: 0, timestamp: 0 });
    }

    /// Reads the word at `addr` and stamps the cell with the current shard and clock.
    pub fn mr(&mut self, addr: u32) -> (record: MemoryReadRecord)
        ensures
            record == read_record_of(
                entry_at(old(self).memory@, addr),
                old(self).current_shard,
                old(self).clk,
            ),
            final(self).memory@ == old(self).memory@.insert(
                addr,
                MemoryEntry {
                    value: record.value,
                    shard: old(self).current_shard,
                    timestamp: old(self).clk,
                },
            ),
            final(self).current_shard == old(self).current_shard,
            final(self).clk == old(self).clk,
            final(self).uint256_mul_events == old(self).uint256_mul_events,
    {
        broadcast use vstd::std_specs::hash::group_hash_axioms;

        let entry = match self.memory.get(&addr) {
            Some(entry) => *entry,
            None => MemoryEntry { value: 0, shard: 0, timestamp: 0 },
        };
        self.memory.insert(
            addr,
            MemoryEntry { value: entry.value, shard: self.current_shard, timestamp: self.clk },
        );
        MemoryReadRecord {
            value: entry.value,
            shard: self.current_shard,
            timestamp: self.clk,
            prev_shard: entry.shard,
            prev_timestamp: entry.timestamp,
        }
    }

    /// Writes `value` to `addr` and stamps the cell with the current shard and clock.
    pub fn mw(&mut self, addr: u32, value: u32) -> (record: MemoryWriteRecord)
        ensures
            record == write_record_of(
                entry_at(old(self).memory@, addr),
                value,
                old(self).current_shard,
                old(self).clk,
            ),
            final(self).memory@ == old(self).memory@.insert(
                addr,
                MemoryEntry { value, shard: old(self).current_shard, timestamp: old(self).clk },
            ),
            final(self).current_shard == old(self).current_shard,
            final(self).clk == old(self).clk,
            final(self).uint256_mul_events == old(self).uint256_mul_events,
    {
        broadcast use vstd::std_specs::hash::group_hash_axioms;

        let entry = match self.memory.get(&addr) {
            Some(entry) => *entry,
            None => MemoryEntry { value: 0, shard: 0, timestamp: 0 },
        };
        self.memory.insert(
            addr,
            MemoryEntry { value, shard: self.current_shard, timestamp: self.clk },
        );
        MemoryWriteRecord {
            value,
            shard: self.current_shard,
            timestamp: self.clk,
            prev_value: entry.value,
            prev_shard: entry.shard,
            prev_timestamp: entry.timestamp,
        }
    }

    /// The `len` words from `addr` on, read without records.
    pub fn slice_unsafe(&self, addr: u32, len: usize) -> (words: Vec<u32>)
        requires
            addr + 4 * len <= 0x1_0000_0000,
        ensures
            words@ == words_at(self.memory@, addr, len as nat),
    {
        let mut words: Vec<u32> = Vec::new();
        let mut i: usize = 0;
        while i < len
            invariant
                i <= len,
                addr + 4 * len <= 0x1_0000_0000,
                words@ == words_at(self.memory@, addr, i as nat),
            decreases len - i,
        {
            let a: u32 = addr + 4 * (i as u32);
            words.push(self.word(a));
            i += 1;
            proof {
                assert(words@ =~= words_at(self.memory@, addr, i as nat));
            }
        }
        words
    }

    /// Reads the `len` words from `addr` on, each with a record.
    pub fn mr_slice(&mut self, addr: u32, len: usize) -> (r: (Vec<MemoryReadRecord>, Vec<u32>))
        requires
            addr + 4 * len <= 0x1_0000_0000,
        ensures
            r.1@ == words_at(old(self).memory@, addr, len as nat),
            r.0@.len() == len,
            forall|k: int|
                0 <= k < len ==> r.0@[k] == read_record_of(
                    entry_at(old(self).memory@, (addr + 4 * k) as u32),
                    old(self).current_shard,
                    old(self).clk,
                ),
            forall|a: u32|
                entry_at(final(self).memory@, a) == if in_range(a, addr, len as nat) {
                    MemoryEntry {
                        value: entry_at(old(self).memory@, a).value,
                        shard: old(self).current_shard,
                        timestamp: old(self).clk,
                    }
                } else {
                    entry_at(old(self).memory@, a)
                },
            final(self).current_shard == old(self).current_shard,
            final(self).clk == old(self).clk,
            final(self).uint256_mul_events == old(self).uint256_mul_events,
    {
        let mut records: Vec<MemoryReadRecord> = Vec::new();
        let mut words: Vec<u32> = Vec::new();
        let mut i: usize = 0;
        while i < len
            invariant
                i <= len,
                addr + 4 * len <= 0x1_0000_0000,
                words@ == words_at(old(self).memory@, addr, i as nat),
                records@.len() == i,
                forall|k: int|
                    0 <= k < i ==> records@[k] == read_record_of(
                        entry_at(old(self).memory@, (addr + 4 * k) as u32),
                        old(self).current_shard,
                        old(self).clk,
                    ),
                forall|a: u32|
                    entry_at(self.memory@, a) == if in_range(a, addr, i as nat) {
                        MemoryEntry {
                            value: entry_at(old(self).memory@, a).value,
                            shard: old(self).current_shard,
                            timestamp: old(self).clk,
                        }
                    } else {
                        entry_at(old(self).memory@, a)
                    },
                self.current_shard == old(self).current_shard,
                self.clk == old(self).clk,
                self.uint256_mul_events == old(self).uint256_mul_events,
            decreases len - i,
        {
            let a: u32 = addr + 4 * (i as u32);
            proof {
                assert(!in_range(a, addr, i as nat));
            }
            let ghost before = self.memory@;
            let record = self.mr(a);
            records.push(record);
            words.push(record.value);
            i += 1;
            proof {
                assert(words@ =~= words_at(old(self).memory@, addr, i as nat));
                assert forall|b: u32|
                    entry_at(self.memory@, b) == if in_range(b, addr, i as nat) {
                        MemoryEntry {
                            value: entry_at(old(self).memory@, b).value,
                            shard: old(self).current_shard,
                            timestamp: old(self).clk,
                        }
                    } else {
                        entry_at(old(self).memory@, b)
                    } by {
                    assert(in_range(b, addr, i as nat) == (in_range(b, addr, (i - 1) as nat) || b
                        == a));
                    assert(entry_at(self.memory@, b) == if b == a {
                        self.memory@[a]
                    } else {
                        entry_at(before, b)
                    });
                }
            }
        }
        (records, words)
    }

    /// Writes `values` to the words from `addr` on, each with a record.
    pub fn mw_slice(&mut self, addr: u32, values: &[u32]) -> (records: Vec<MemoryWriteRecord>)
        requires
            addr + 4 * values@.len() <= 0x1_0000_0000,
        ensures
            records@.len() == values@.len(),
            forall|k: int|
                0 <= k < values@.len() ==> records@[k] == write_record_of(
                    entry_at(old(self).memory@, (addr + 4 * k) as u32),
                    values@[k],
                    old(self).current_shard,
                    old(self).clk,
                ),
            forall|a: u32|
                entry_at(final(self).memory@, a) == if in_range(a, addr, values@.len()) {
                    MemoryEntry {
                        value: values@[(a - addr) / 4],
                        shard: old(self).current_shard,
                        timestamp: old(self).clk,
                    }
                } else {
                    entry_at(old(self).memory@, a)
                },
            final(self).current_shard == old(self).current_shard,
            final(self).clk == old(self).clk,
            final(self).uint256_mul_events == old(self).uint256_mul_events,
    {
        let mut records: Vec<MemoryWriteRecord> = Vec::new();
        let mut i: usize = 0;
        while i < values.len()
            invariant
                i <= values@.len(),
                addr + 4 * values@.len() <= 0x1_0000_0000,
                records@.len() == i,
                forall|k: int|
                    0 <= k < i ==> records@[k] == write_record_of(
                        entry_at(old(self).memory@, (addr + 4 * k) as u32),
                        values@[k],
                        old(self).current_shard,
                        old(self).clk,
                    ),
                forall|a: u32|
                    entry_at(self.memory@, a) == if in_range(a, addr, i as nat) {
                        MemoryEntry {
                            value: values@[(a - addr) / 4],
                            shard: old(self).current_shard,
                            timestamp: old(self).clk,
                        }
                    } else {
                        entry_at(old(self).memory@, a)
                    },
                self.current_shard == old(self).current_shard,
                self.clk == old(self).clk,
                self.uint256_mul_events == old(self).uint256_mul_events,
            decreases values.len() - i,
        {
            let a: u32 = addr + 4 * (i as u32);
            proof {
                assert(!in_range(a, addr, i as nat));
            }
            let ghost before = self.memory@;
            let record = self.mw(a, values[i]);
            records.push(record);
            i += 1;
            proof {
                assert((a - addr) / 4 == i - 1);
                assert forall|b: u32|
                    entry_at(self.memory@, b) == if in_range(b, addr, i as nat) {
                        MemoryEntry {
                            value: values@[(b - addr) / 4],
                            shard: old(self).current_shard,
                            timestamp: old(self).clk,
                        }
                    } else {
                        entry_at(old(self).memory@, b)
                    } by {
                    assert(in_range(b, addr, i as nat) == (in_range(b, addr, (i - 1) as nat) || b
                        == a));
                    assert(entry_at(self.memory@, b) == if b == a {
                        self.memory@[a]
                    } else {
                        entry_at(before, b)
                    });
                }
            }
        }
        records
    }
}


/// The chip of the 256-bit modular multiplication precompile.
#[derive(Default)]
pub struct Uint256MulChip;

/// The entry of a cell after a read at shard `shard` and clock `clk`.
pub open spec fn stamped(e: MemoryEntry, shard: u32, clk: u32) -> MemoryEntry {
    MemoryEntry { value: e.value, shard, timestamp: clk }
}

/// The modulus that a call with second argument `y_ptr` would read is zero.
pub open spec fn modulus_is_zero(rt: SyscallContext, y_ptr: u32) -> bool {
    all_zero(words_at(rt.memory@, (y_ptr + 32) as u32, 8))
}

/// `post` is what a call of the precompile with the arguments `x_ptr` and `y_ptr` makes
/// of `pre`: the eight words at `x_ptr` hold the product of the integers at `x_ptr` and
/// `y_ptr`, reduced by the integer at `y_ptr + 32`; every other word is as it was; the
/// cells that were read or written carry the current shard and clock; and the log has
/// one more event, which holds the operands as they were read and a record of each
/// access.
pub open spec fn is_executed(pre: SyscallContext, post: SyscallContext, x_ptr: u32, y_ptr: u32) -> bool {
    let m0 = pre.memory@;
    let shard = pre.current_shard;
    let clk = pre.clk;
    let x = words_at(m0, x_ptr, 8);
    let y = words_at(m0, y_ptr, 8);
    let modulus = words_at(m0, (y_ptr + 32) as u32, 8);
    let result = words_at(post.memory@, x_ptr, 8);
    let event = post.uint256_mul_events@.last();
    &&& post.current_shard == shard
    &&& post.clk == clk
    &&& words_value(result) == (words_value(x) * words_value(y)) % words_value(modulus)
    &&& forall|a: u32|
        entry_at(post.memory@, a) == if in_range(a, x_ptr, 8) {
            MemoryEntry { value: result[(a - x_ptr) / 4], shard, timestamp: clk }
        } else if in_range(a, y_ptr, 16) {
            stamped(entry_at(m0, a), shard, clk)
        } else {
            entry_at(m0, a)
        }
    &&& post.uint256_mul_events@.len() == pre.uint256_mul_events@.len() + 1
    &&& post.uint256_mul_events@.drop_last() == pre.uint256_mul_events@
    &&& event.shard == shard
    &&& event.clk == clk
    &&& event.x_ptr == x_ptr
    &&& event.y_ptr == y_ptr
    &&& event.x@ == x
    &&& event.y@ == y
    &&& event.modulus@ == modulus
    &&& forall|k: int|
        0 <= k < 8 ==> event.y_memory_records@[k] == read_record_of(
            entry_at(m0, (y_ptr + 4 * k) as u32),
            shard,
            clk,
        )
    &&& forall|k: int|
        0 <= k < 8 ==> event.modulus_memory_records@[k] == read_record_of(
            entry_at(m0, (y_ptr + 32 + 4 * k) as u32),
            shard,
            clk,
        )
    &&& forall|k: int|
        0 <= k < 8 ==> event.x_memory_records@[k] == write_record_of(
            if in_range((x_ptr + 4 * k) as u32, y_ptr, 16) {
                stamped(entry_at(m0, (x_ptr + 4 * k) as u32), shard, clk)
            } else {
                entry_at(m0, (x_ptr + 4 * k) as u32)
            },
            result[k],
            shard,
            clk,
        )
}

/// The arguments of a call are acceptable: both pointers are word-aligned, they differ,
/// and the eight words at the first and the sixteen words at the second lie within the
/// address space.
pub open spec fn is_valid_call(x_ptr: u32, y_ptr: u32) -> bool {
    &&& x_ptr % 4 == 0
    &&& y_ptr % 4 == 0
    &&& x_ptr != y_ptr
    &&& x_ptr + 32 <= 0x1_0000_0000
    &&& y_ptr + 64 <= 0x1_0000_0000
}

/// Whether the arguments of a call are acceptable.
pub fn is_aligned_call(x_ptr: u32, y_ptr: u32) -> (valid: bool)
    ensures
        valid == is_valid_call(x_ptr, y_ptr),
{
    x_ptr % 4 == 0 && y_ptr % 4 == 0 && x_ptr != y_ptr && x_ptr <= 0xffff_ffe0 && y_ptr
        <= 0xffff_ffc0
}

/// The eight read records of a vector as an array.
fn read_records_array(v: &Vec<MemoryReadRecord>) -> (a: [MemoryReadRecord; NUM_PHYSICAL_WORDS])
    requires
        v@.len() == 8,
    ensures
        a@ == v@,
{
    let a = [v[0], v[1], v[2], v[3], v[4], v[5], v[6], v[7]];
    proof {
        assert(a@ =~= v@);
    }
    a
}

/// The eight write records of a vector as an array.
fn write_records_array(v: &Vec<MemoryWriteRecord>) -> (a: [MemoryWriteRecord; NUM_PHYSICAL_WORDS])
    requires
        v@.len() == 8,
    ensures
        a@ == v@,
{
    let a = [v[0], v[1], v[2], v[3], v[4], v[5], v[6], v[7]];
    proof {
        assert(a@ =~= v@);
    }
    a
}

impl Uint256MulChip {
    pub fn new() -> Self {
        Uint256MulChip
    }

    /// The name of the chip.
    pub fn name(&self) -> (name: String)
        ensures
            name@ == "Uint256MulMod"@,
    {
        "Uint256MulMod".to_string()
    }

    /// The clock cycles that a call takes beyond those of the dispatch: none.
    pub fn num_extra_cycles(&self) -> (cycles: u32)
        ensures
            cycles == 0,
    {
        0
    }

    /// Whether a shard with these events has a trace of this chip: it has one unless it
    /// has no event.
    pub fn included(&self, events: &Vec<Uint256MulEvent>) -> (included: bool)
        ensures
            included == (events@.len() > 0),
    {
        events.len() > 0
    }

    /// Performs one call of the precompile. `arg1` is the address of `x`, which the
    /// product overwrites; `arg2` is the address of `y`, which the modulus follows. Both
    /// are word-aligned and differ. A modulus of zero is refused, with nothing read,
    /// written or logged.
    #[verifier::rlimit(60)]
    #[verifier::spinoff_prover]
    pub fn execute(&self, rt: &mut SyscallContext, arg1: u32, arg2: u32) -> (r: Result<
        Option<u32>,
        Uint256MulError,
    >)
        requires
            is_valid_call(arg1, arg2),
        ensures
            r.is_err() <==> modulus_is_zero(*old(rt), arg2),
            r.is_err() ==> *final(rt) == *old(rt) && r == Err::<Option<u32>, Uint256MulError>(
                Uint256MulError::ModulusIsZero,
            ),
            r.is_ok() ==> r == Ok::<Option<u32>, Uint256MulError>(None) && is_executed(
                *old(rt),
                *final(rt),
                arg1,
                arg2,
            ),
    {
        let x_ptr = arg1;
        let y_ptr = arg2;
        let ghost m0 = rt.memory@;
        let ghost shard0 = rt.current_shard;
        let ghost clk0 = rt.clk;

        let unchecked_modulus = rt.slice_unsafe(y_ptr + 32, 8);
        if words_all_zero(unchecked_modulus.as_slice()) {
            return Err(Uint256MulError::ModulusIsZero);
        }
        let x = rt.slice_unsafe(x_ptr, 8);

        let (y_memory_records_vec, y) = rt.mr_slice(y_ptr, 8);
        let y_memory_records = read_records_array(&y_memory_records_vec);
        let ghost m1 = rt.memory@;

        let (modulus_memory_records_vec, modulus) = rt.mr_slice(y_ptr + 32, 8);
        let modulus_memory_records = read_records_array(&modulus_memory_records_vec);
        let ghost m2 = rt.memory@;
        proof {
            assert(modulus@ =~= words_at(m0, (y_ptr + 32) as u32, 8)) by {
                assert forall|k: int| 0 <= k < 8 implies modulus@[k] == words_at(
                    m0,
                    (y_ptr + 32) as u32,
                    8,
                )[k] by {
                    let a = (y_ptr + 32 + 4 * k) as u32;
                    assert(!in_range(a, y_ptr, 8));
                    assert(entry_at(m1, a) == entry_at(m0, a));
                }
            }
            assert forall|k: int| 0 <= k < 8 implies #[trigger] modulus_memory_records@[k]
                == read_record_of(entry_at(m0, (y_ptr + 32 + 4 * k) as u32), shard0, clk0) by {
                let a = (y_ptr + 32 + 4 * k) as u32;
                assert(!in_range(a, y_ptr, 8));
                assert(entry_at(m1, a) == entry_at(m0, a));
                assert(a == ((y_ptr + 32) as u32 + 4 * k) as u32);
            }
        }

        // Perform the multiplication and take the result modulo the modulus.
        let result = mul_mod_words(x.as_slice(), y.as_slice(), modulus.as_slice());

        // Write the result over x.
        let x_memory_records_vec = rt.mw_slice(x_ptr, result.as_slice());
        let x_memory_records = write_records_array(&x_memory_records_vec);

        let shard = rt.current_shard;
        let clk = rt.clk;
        rt.uint256_mul_events.push(
            Uint256MulEvent {
                shard,
                clk,
                x_ptr,
                x,
                y_ptr,
                y,
                modulus,
                x_memory_records,
                y_memory_records,
                modulus_memory_records,
            },
        );
        proof {
            let m3 = rt.memory@;
            assert(words_at(m3, x_ptr, 8) =~= result@) by {
                assert forall|k: int| 0 <= k < 8 implies words_at(m3, x_ptr, 8)[k] == result@[k] by {
                    let a = (x_ptr + 4 * k) as u32;
                    assert(in_range(a, x_ptr, 8));
                    assert((a - x_ptr) / 4 == k);
                    assert(entry_at(m3, a).value == result@[k]);
                }
            }
            assert forall|a: u32|
                entry_at(m3, a) == if in_range(a, x_ptr, 8) {
                    MemoryEntry { value: result@[(a - x_ptr) / 4], shard: shard0, timestamp: clk0 }
                } else if in_range(a, y_ptr, 16) {
                    stamped(entry_at(m0, a), shard0, clk0)
                } else {
                    entry_at(m0, a)
                } by {
                assert(in_range(a, y_ptr, 16) == (in_range(a, y_ptr, 8) || in_range(
                    a,
                    (y_ptr + 32) as u32,
                    8,
                )));
            }
            assert forall|k: int| 0 <= k < 8 implies #[trigger] x_memory_records@[k]
                == write_record_of(
                if in_range((x_ptr + 4 * k) as u32, y_ptr, 16) {
                    stamped(entry_at(m0, (x_ptr + 4 * k) as u32), shard0, clk0)
                } else {
                    entry_at(m0, (x_ptr + 4 * k) as u32)
                },
                result@[k],
                shard0,
                clk0,
            ) by {
                let a = (x_ptr + 4 * k) as u32;
                assert(in_range(a, y_ptr, 16) == (in_range(a, y_ptr, 8) || in_range(
                    a,
                    (y_ptr + 32) as u32,
                    8,
                )));
            }
            assert(rt.uint256_mul_events@.drop_last() =~= old(rt).uint256_mul_events@);
        }
        Ok(None)
    }
}


/// The columns of one read access: the word read, as four byte cells, and the shard and
/// clock of the access before it.
#[derive(Debug, Clone, Copy)]
pub struct MemoryReadCols<T> {
    pub value: [T; 4],
    pub prev_shard: T,
    pub prev_clk: T,
}

/// The columns of one write access: the word before and the word written, each as four
/// byte cells, and the shard and clock of the access before it.
#[derive(Debug, Clone, Copy)]
pub struct MemoryWriteCols<T> {
    pub prev_value: [T; 4],
    pub value: [T; 4],
    pub prev_shard: T,
    pub prev_clk: T,
}

/// The columns of the multiplication: the byte limbs of the reduced product.
#[derive(Debug, Clone, Copy)]
pub struct FieldOpCols<T> {
    pub result: [T; NUM_PHYSICAL_LIMBS],
}

/// A set of columns for the Uint256Mul operation.
#[derive(Debug, Clone, Copy)]
pub struct Uint256MulCols<T> {
    /// The shard number of the syscall.
    pub shard: T,
    /// The clock cycle of the syscall.
    pub clk: T,
    /// The pointer to the first input.
    pub x_ptr: T,
    /// The pointer to the second input, which is 16 words of (y, modulus).
    pub y_ptr: T,
    /// The access to x, which is read and then overwritten with the result.
    pub x_memory: [MemoryWriteCols<T>; NUM_PHYSICAL_WORDS],
    pub y_memory: [MemoryReadCols<T>; NUM_PHYSICAL_WORDS],
    pub modulus_memory: [MemoryReadCols<T>; NUM_PHYSICAL_WORDS],
    /// Output values.
    pub output: FieldOpCols<T>,
    pub is_real: T,
}

/// The number of cells of a row.
pub const NUM_COLS: usize = 213;

/// The identifier under which the precompile is dispatched.
pub const UINT256_MUL_SYSCALL_ID: u32 = 0x1D;

/// The four byte cells of a word, least significant first.
pub open spec fn word_cells(w: u32) -> Seq<u32> {
    Seq::new(4, |k: int| word_byte(w, k) as u32)
}

/// The columns hold the record.
pub open spec fn is_read_cols(cols: MemoryReadCols<u32>, record: MemoryReadRecord) -> bool {
    &&& cols.value@ == word_cells(record.value)
    &&& cols.prev_shard == record.prev_shard
    &&& cols.prev_clk == record.prev_timestamp
}

/// The columns hold the record.
pub open spec fn is_write_cols(cols: MemoryWriteCols<u32>, record: MemoryWriteRecord) -> bool {
    &&& cols.prev_value@ == word_cells(record.prev_value)
    &&& cols.value@ == word_cells(record.value)
    &&& cols.prev_shard == record.prev_shard
    &&& cols.prev_clk == record.prev_timestamp
}

/// Every cell is a byte.
pub open spec fn are_bytes(cells: Seq<u32>) -> bool {
    forall|i: int| 0 <= i < cells.len() ==> cells[i] < 256
}

/// The bytes that byte cells hold.
pub open spec fn bytes_of_cells(cells: Seq<u32>) -> Seq<u8> {
    Seq::new(cells.len(), |i: int| (cells[i] % 256) as u8)
}

/// The limbs of the words that a group of read accesses read: limb `i` is cell `i % 4`
/// of access `i / 4`.
pub open spec fn limbs_from_access(memory: Seq<MemoryReadCols<u32>>) -> Seq<u32> {
    Seq::new(4 * memory.len(), |i: int| memory[i / 4].value@[i % 4])
}

/// The limbs of the words that a group of write accesses found.
pub open spec fn limbs_from_prev_access(memory: Seq<MemoryWriteCols<u32>>) -> Seq<u32> {
    Seq::new(4 * memory.len(), |i: int| memory[i / 4].prev_value@[i % 4])
}

/// The limbs of the words that a group of write accesses wrote.
pub open spec fn limbs_written(memory: Seq<MemoryWriteCols<u32>>) -> Seq<u32> {
    Seq::new(4 * memory.len(), |i: int| memory[i / 4].value@[i % 4])
}

/// The operands of an event have eight words each, and its modulus is not zero.
pub open spec fn is_well_formed(event: Uint256MulEvent) -> bool {
    &&& event.x@.len() == 8
    &&& event.y@.len() == 8
    &&& event.modulus@.len() == 8
    &&& !all_zero(event.modulus@)
}

/// The row is the row of the event: it is real, carries the event's shard, clock and
/// pointers and the columns of each access record, and its output is the 32 byte limbs
/// of the product of `x` and `y` reduced by the modulus.
pub open spec fn is_event_row(row: Uint256MulCols<u32>, event: Uint256MulEvent) -> bool {
    &&& row.is_real == 1
    &&& row.shard == event.shard
    &&& row.clk == event.clk
    &&& row.x_ptr == event.x_ptr
    &&& row.y_ptr == event.y_ptr
    &&& forall|i: int| 0 <= i < 8 ==> is_write_cols(#[trigger] row.x_memory@[i], event.x_memory_records@[i])
    &&& forall|i: int| 0 <= i < 8 ==> is_read_cols(#[trigger] row.y_memory@[i], event.y_memory_records@[i])
    &&& forall|i: int|
        0 <= i < 8 ==> is_read_cols(#[trigger] row.modulus_memory@[i], event.modulus_memory_records@[i])
    &&& are_bytes(row.output.result@)
    &&& le_value(bytes_of_cells(row.output.result@)) == (words_value(event.x@) * words_value(
        event.y@,
    )) % words_value(event.modulus@)
}

/// The row is a padding row: every cell of it is zero. Its output is the product of
/// zero and zero.
pub open spec fn is_padding_row(row: Uint256MulCols<u32>) -> bool {
    &&& row.is_real == 0
    &&& row.shard == 0
    &&& row.clk == 0
    &&& row.x_ptr == 0
    &&& row.y_ptr == 0
    &&& forall|i: int|
        0 <= i < 8 ==> is_write_cols(
            #[trigger] row.x_memory@[i],
            write_record_of(MemoryEntry { value: 0, shard: 0, timestamp: 0 }, 0, 0, 0),
        )
    &&& forall|i: int|
        0 <= i < 8 ==> is_read_cols(
            #[trigger] row.y_memory@[i],
            read_record_of(MemoryEntry { value: 0, shard: 0, timestamp: 0 }, 0, 0),
        )
    &&& forall|i: int|
        0 <= i < 8 ==> is_read_cols(
            #[trigger] row.modulus_memory@[i],
            read_record_of(MemoryEntry { value: 0, shard: 0, timestamp: 0 }, 0, 0),
        )
    &&& forall|i: int| 0 <= i < 32 ==> row.output.result@[i] == 0
}

/// The row meets the constraints of the chip. The flag `is_real` is zero or one. Where
/// it is one, the limbs of `x` as it was found, of `y` and of the modulus are bytes, as
/// are those of the output; the modulus is not zero; the output is the product of `x`
/// and `y` reduced by the modulus; and each limb of the output is the byte written to
/// `x`: limb `i` is byte `i % 4` of word `i / 4`.
pub open spec fn row_accepted(row: Uint256MulCols<u32>) -> bool {
    let x = limbs_from_prev_access(row.x_memory@);
    let y = limbs_from_access(row.y_memory@);
    let modulus = limbs_from_access(row.modulus_memory@);
    let output = row.output.result@;
    &&& row.is_real == 0 || row.is_real == 1
    &&& row.is_real == 1 ==> {
        &&& are_bytes(x)
        &&& are_bytes(y)
        &&& are_bytes(modulus)
        &&& are_bytes(output)
        &&& le_value(bytes_of_cells(modulus)) != 0
        &&& le_value(bytes_of_cells(output)) == (le_value(bytes_of_cells(x)) * le_value(
            bytes_of_cells(y),
        )) % le_value(bytes_of_cells(modulus))
        &&& output == limbs_written(row.x_memory@)
    }
}

/// What a real row publishes to the table of dispatched syscalls: shard, clock, the
/// identifier of the precompile and the two pointers.
pub open spec fn syscall_receipt_of(row: Uint256MulCols<u32>) -> Option<(u32, u32, u32, u32, u32)> {
    if row.is_real == 1 {
        Some((row.shard, row.clk, UINT256_MUL_SYSCALL_ID, row.x_ptr, row.y_ptr))
    } else {
        None
    }
}

/// The four byte cells of a word.
pub fn word_to_cells(w: u32) -> (cells: [u32; 4])
    ensures
        cells@ == word_cells(w),
{
    let cells: [u32; 4] = [w % 256, (w / 256) % 256, (w / 65536) % 256, (w / 16777216) % 256];
    proof {
        assert(cells@ =~= word_cells(w));
    }
    cells
}

impl MemoryReadCols<u32> {
    /// The columns of a read record.
    pub fn populate(record: MemoryReadRecord) -> (cols: Self)
        ensures
            is_read_cols(cols, record),
    {
        MemoryReadCols {
            value: word_to_cells(record.value),
            prev_shard: record.prev_shard,
            prev_clk: record.prev_timestamp,
        }
    }
}

impl MemoryWriteCols<u32> {
    /// The columns of a write record.
    pub fn populate(record: MemoryWriteRecord) -> (cols: Self)
        ensures
            is_write_cols(cols, record),
    {
        MemoryWriteCols {
            prev_value: word_to_cells(record.prev_value),
            value: word_to_cells(record.value),
            prev_shard: record.prev_shard,
            prev_clk: record.prev_timestamp,
        }
    }
}

/// The limbs that a group of read accesses read, as a vector.
fn cells_from_access(memory: &[MemoryReadCols<u32>; NUM_PHYSICAL_WORDS]) -> (cells: Vec<u32>)
    ensures
        cells@ == limbs_from_access(memory@),
{
    let mut cells: Vec<u32> = Vec::new();
    let mut i: usize = 0;
    while i < 8
        invariant
            i <= 8,
            cells@.len() == 4 * i,
            forall|j: int| 0 <= j < 4 * i ==> cells@[j] == memory@[j / 4].value@[j % 4],
        decreases 8 - i,
    {
        let value: [u32; 4] = memory[i].value;
        cells.push(value[0]);
        cells.push(value[1]);
        cells.push(value[2]);
        cells.push(value[3]);
        i += 1;
    }
    proof {
        assert(cells@ =~= limbs_from_access(memory@));
    }
    cells
}

/// The limbs that a group of write accesses found and the limbs that it wrote, as
/// vectors.
fn cells_from_write_access(memory: &[MemoryWriteCols<u32>; NUM_PHYSICAL_WORDS]) -> (r: (
    Vec<u32>,
    Vec<u32>,
))
    ensures
        r.0@ == limbs_from_prev_access(memory@),
        r.1@ == limbs_written(memory@),
{
    let mut found: Vec<u32> = Vec::new();
    let mut written: Vec<u32> = Vec::new();
    let mut i: usize = 0;
    while i < 8
        invariant
            i <= 8,
            found@.len() == 4 * i,
            written@.len() == 4 * i,
            forall|j: int| 0 <= j < 4 * i ==> found@[j] == memory@[j / 4].prev_value@[j % 4],
            forall|j: int| 0 <= j < 4 * i ==> written@[j] == memory@[j / 4].value@[j % 4],
        decreases 8 - i,
    {
        let prev_value: [u32; 4] = memory[i].prev_value;
        let value: [u32; 4] = memory[i].value;
        found.push(prev_value[0]);
        found.push(prev_value[1]);
        found.push(prev_value[2]);
        found.push(prev_value[3]);
        written.push(value[0]);
        written.push(value[1]);
        written.push(value[2]);
        written.push(value[3]);
        i += 1;
    }
    proof {
        assert(found@ =~= limbs_from_prev_access(memory@));
        assert(written@ =~= limbs_written(memory@));
    }
    (found, written)
}

/// The bytes that the cells hold, or `None` where a cell is no byte.
pub fn cells_to_bytes(cells: &[u32]) -> (r: Option<Vec<u8>>)
    ensures
        r.is_some() <==> are_bytes(cells@),
        r.is_some() ==> r.unwrap()@ == bytes_of_cells(cells@),
{
    let mut bytes: Vec<u8> = Vec::new();
    let mut i: usize = 0;
    while i < cells.len()
        invariant
            i <= cells.len(),
            bytes@.len() == i,
            forall|k: int| 0 <= k < i ==> cells@[k] < 256,
            forall|k: int| 0 <= k < i ==> bytes@[k] == (cells@[k] % 256) as u8,
        decreases cells.len() - i,
    {
        if cells[i] >= 256 {
            return None;
        }
        bytes.push((cells[i] % 256) as u8);
        i += 1;
    }
    proof {
        assert(bytes@ =~= bytes_of_cells(cells@));
    }
    Some(bytes)
}

/// The row of padding.
pub fn padding_row() -> (row: Uint256MulCols<u32>)
    ensures
        is_padding_row(row),
{
    let blank = MemoryReadRecord { value: 0, shard: 0, timestamp: 0, prev_shard: 0, prev_timestamp: 0 };
    let blank_write = MemoryWriteRecord {
        value: 0,
        shard: 0,
        timestamp: 0,
        prev_value: 0,
        prev_shard: 0,
        prev_timestamp: 0,
    };
    let read = MemoryReadCols::<u32>::populate(blank);
    let write = MemoryWriteCols::<u32>::populate(blank_write);
    let result: [u32; NUM_PHYSICAL_LIMBS] = [0u32; NUM_PHYSICAL_LIMBS];
    proof {
        broadcast use vstd::array::group_array_axioms;

        assert(forall|i: int| 0 <= i < 32 ==> result@[i] == 0u32);
    }
    Uint256MulCols {
        shard: 0,
        clk: 0,
        x_ptr: 0,
        y_ptr: 0,
        x_memory: [write, write, write, write, write, write, write, write],
        y_memory: [read, read, read, read, read, read, read, read],
        modulus_memory: [read, read, read, read, read, read, read, read],
        output: FieldOpCols { result },
        is_real: 0,
    }
}

/// The row of an event.
pub fn event_row(event: &Uint256MulEvent) -> (row: Uint256MulCols<u32>)
    requires
        is_well_formed(*event),
    ensures
        is_event_row(row, *event),
{
    let xr = &event.x_memory_records;
    let yr = &event.y_memory_records;
    let mr = &event.modulus_memory_records;
    let x_memory = [
        MemoryWriteCols::<u32>::populate(xr[0]),
        MemoryWriteCols::<u32>::populate(xr[1]),
        MemoryWriteCols::<u32>::populate(xr[2]),
        MemoryWriteCols::<u32>::populate(xr[3]),
        MemoryWriteCols::<u32>::populate(xr[4]),
        MemoryWriteCols::<u32>::populate(xr[5]),
        MemoryWriteCols::<u32>::populate(xr[6]),
        MemoryWriteCols::<u32>::populate(xr[7]),
    ];
    let y_memory = [
        MemoryReadCols::<u32>::populate(yr[0]),
        MemoryReadCols::<u32>::populate(yr[1]),
        MemoryReadCols::<u32>::populate(yr[2]),
        MemoryReadCols::<u32>::populate(yr[3]),
        MemoryReadCols::<u32>::populate(yr[4]),
        MemoryReadCols::<u32>::populate(yr[5]),
        MemoryReadCols::<u32>::populate(yr[6]),
        MemoryReadCols::<u32>::populate(yr[7]),
    ];
    let modulus_memory = [
        MemoryReadCols::<u32>::populate(mr[0]),
        MemoryReadCols::<u32>::populate(mr[1]),
        MemoryReadCols::<u32>::populate(mr[2]),
        MemoryReadCols::<u32>::populate(mr[3]),
        MemoryReadCols::<u32>::populate(mr[4]),
        MemoryReadCols::<u32>::populate(mr[5]),
        MemoryReadCols::<u32>::populate(mr[6]),
        MemoryReadCols::<u32>::populate(mr[7]),
    ];

    // Populate the output column.
    let product = mul_mod_words(event.x.as_slice(), event.y.as_slice(), event.modulus.as_slice());
    let product_bytes = words_to_bytes_le(product.as_slice());
    let mut result: [u32; NUM_PHYSICAL_LIMBS] = [0u32; NUM_PHYSICAL_LIMBS];
    let mut i: usize = 0;
    while i < 32
        invariant
            i <= 32,
            product_bytes@.len() == 32,
            forall|k: int| 0 <= k < i ==> result@[k] == product_bytes@[k] as u32,
        decreases 32 - i,
    {
        result[i] = product_bytes[i] as u32;
        i += 1;
    }
    proof {
        assert(bytes_of_cells(result@) =~= product_bytes@);
    }
    Uint256MulCols {
        shard: event.shard,
        clk: event.clk,
        x_ptr: event.x_ptr,
        y_ptr: event.y_ptr,
        x_memory,
        y_memory,
        modulus_memory,
        output: FieldOpCols { result },
        is_real: 1,
    }
}

impl Uint256MulChip {
    /// The number of cells of a row.
    pub fn width(&self) -> (width: usize)
        ensures
            width == NUM_COLS,
    {
        NUM_COLS
    }

    /// The trace of a shard: the rows of its events, in their order, and after them
    /// rows of padding until there are `height` rows.
    pub fn generate_trace(&self, events: &Vec<Uint256MulEvent>, height: usize) -> (rows: Vec<
        Uint256MulCols<u32>,
    >)
        requires
            forall|i: int| 0 <= i < events@.len() ==> is_well_formed(#[trigger] events@[i]),
        ensures
            rows@.len() == if events@.len() >= height {
                events@.len()
            } else {
                height as nat
            },
            forall|i: int| 0 <= i < events@.len() ==> is_event_row(#[trigger] rows@[i], events@[i]),
            forall|i: int| events@.len() <= i < rows@.len() ==> is_padding_row(#[trigger] rows@[i]),
    {
        let mut rows: Vec<Uint256MulCols<u32>> = Vec::new();
        let mut i: usize = 0;
        while i < events.len()
            invariant
                i <= events@.len(),
                rows@.len() == i,
                forall|k: int| 0 <= k < events@.len() ==> is_well_formed(#[trigger] events@[k]),
                forall|k: int| 0 <= k < i ==> is_event_row(#[trigger] rows@[k], events@[k]),
            decreases events.len() - i,
        {
            rows.push(event_row(&events[i]));
            i += 1;
        }
        while rows.len() < height
            invariant
                rows@.len() >= events@.len(),
                rows@.len() <= height || rows@.len() == events@.len(),
                forall|k: int| 0 <= k < events@.len() ==> is_event_row(#[trigger] rows@[k], events@[k]),
                forall|k: int| events@.len() <= k < rows@.len() ==> is_padding_row(#[trigger] rows@[k]),
            decreases height - rows.len(),
        {
            rows.push(padding_row());
        }
        rows
    }

    /// Whether the row meets the constraints of the chip.
    pub fn eval(&self, row: &Uint256MulCols<u32>) -> (accepted: bool)
        ensures
            accepted == row_accepted(*row),
    {
        if row.is_real == 0 {
            return true;
        }
        if row.is_real != 1 {
            return false;
        }
        let (x_cells, written) = cells_from_write_access(&row.x_memory);
        let y_cells = cells_from_access(&row.y_memory);
        let modulus_cells = cells_from_access(&row.modulus_memory);

        // The output is what is written to memory.
        if !words_equal(row.output.result.as_slice(), written.as_slice()) {
            return false;
        }
        let x = match cells_to_bytes(x_cells.as_slice()) {
            Some(bytes) => bytes,
            None => { return false; },
        };
        let y = match cells_to_bytes(y_cells.as_slice()) {
            Some(bytes) => bytes,
            None => { return false; },
        };
        let modulus = match cells_to_bytes(modulus_cells.as_slice()) {
            Some(bytes) => bytes,
            None => { return false; },
        };
        let output = match cells_to_bytes(row.output.result.as_slice()) {
            Some(bytes) => bytes,
            None => { return false; },
        };
        proof {
            lemma_le_value_zero(modulus@);
        }
        if bytes_all_zero(modulus.as_slice()) {
            return false;
        }
        // The output is the product reduced by the modulus.
        let expected = mul_mod_le_bytes(x.as_slice(), y.as_slice(), modulus.as_slice());
        proof {
            if le_value(expected@) == le_value(output@) {
                lemma_le_value_injective(expected@, output@);
            }
        }
        bytes_equal(expected.as_slice(), output.as_slice())
    }

    /// What the row publishes to the table of dispatched syscalls.
    pub fn syscall_receipt(&self, row: &Uint256MulCols<u32>) -> (receipt: Option<
        (u32, u32, u32, u32, u32),
    >)
        ensures
            receipt == syscall_receipt_of(*row),
    {
        if row.is_real == 1 {
            Some((row.shard, row.clk, UINT256_MUL_SYSCALL_ID, row.x_ptr, row.y_ptr))
        } else {
            None
        }
    }
}


/// The words that the write records of an event wrote.
pub open spec fn words_written(event: Uint256MulEvent) -> Seq<u32> {
    Seq::new(8, |k: int| event.x_memory_records@[k].value)
}

/// The records of the event agree with its operands: `x` is what the writes found, `y`
/// and the modulus are what the reads read, and what the writes wrote is the product of
/// `x` and `y` reduced by the modulus.
pub open spec fn is_consistent(event: Uint256MulEvent) -> bool {
    &&& is_well_formed(event)
    &&& forall|k: int| 0 <= k < 8 ==> event.x_memory_records@[k].prev_value == event.x@[k]
    &&& forall|k: int| 0 <= k < 8 ==> event.y_memory_records@[k].value == event.y@[k]
    &&& forall|k: int| 0 <= k < 8 ==> event.modulus_memory_records@[k].value == event.modulus@[k]
    &&& words_value(words_written(event)) == (words_value(event.x@) * words_value(event.y@))
        % words_value(event.modulus@)
}

/// Every row of the trace meets the constraints.
pub open spec fn trace_accepted(rows: Seq<Uint256MulCols<u32>>) -> bool {
    forall|i: int| 0 <= i < rows.len() ==> row_accepted(#[trigger] rows[i])
}

/// After a call, the eight words at `x_ptr` hold the product of the integers that were
/// at `x_ptr` and at `y_ptr`, reduced by the integer that was at `y_ptr + 32`. Where the
/// words of `x` lie apart from the sixteen words at `y_ptr`, those sixteen words are as
/// they were.
pub proof fn lemma_execute_in_place(pre: SyscallContext, post: SyscallContext, x_ptr: u32, y_ptr: u32)
    requires
        is_executed(pre, post, x_ptr, y_ptr),
        x_ptr + 32 <= 0x1_0000_0000,
        y_ptr + 64 <= 0x1_0000_0000,
    ensures
        words_value(words_at(post.memory@, x_ptr, 8)) == (words_value(
            words_at(pre.memory@, x_ptr, 8),
        ) * words_value(words_at(pre.memory@, y_ptr, 8))) % words_value(
            words_at(pre.memory@, (y_ptr + 32) as u32, 8),
        ),
        x_ptr + 32 <= y_ptr || y_ptr + 64 <= x_ptr ==> {
            &&& words_at(post.memory@, y_ptr, 8) == words_at(pre.memory@, y_ptr, 8)
            &&& words_at(post.memory@, (y_ptr + 32) as u32, 8) == words_at(
                pre.memory@,
                (y_ptr + 32) as u32,
                8,
            )
        },
{
    if x_ptr + 32 <= y_ptr || y_ptr + 64 <= x_ptr {
        assert forall|k: int| 0 <= k < 8 implies words_at(post.memory@, y_ptr, 8)[k] == words_at(
            pre.memory@,
            y_ptr,
            8,
        )[k] by {
            let a = (y_ptr + 4 * k) as u32;
            assert(!in_range(a, x_ptr, 8));
            assert(entry_at(post.memory@, a).value == entry_at(pre.memory@, a).value);
        }
        assert(words_at(post.memory@, y_ptr, 8) =~= words_at(pre.memory@, y_ptr, 8));
        let m_ptr = (y_ptr + 32) as u32;
        assert forall|k: int| 0 <= k < 8 implies words_at(post.memory@, m_ptr, 8)[k] == words_at(
            pre.memory@,
            m_ptr,
            8,
        )[k] by {
            let a = (m_ptr + 4 * k) as u32;
            assert(!in_range(a, x_ptr, 8));
            assert(entry_at(post.memory@, a).value == entry_at(pre.memory@, a).value);
        }
        assert(words_at(post.memory@, m_ptr, 8) =~= words_at(pre.memory@, m_ptr, 8));
    }
}

/// The event that a call logs is consistent.
pub proof fn lemma_executed_event_consistent(
    pre: SyscallContext,
    post: SyscallContext,
    x_ptr: u32,
    y_ptr: u32,
)
    requires
        is_executed(pre, post, x_ptr, y_ptr),
        !modulus_is_zero(pre, y_ptr),
        x_ptr + 32 <= 0x1_0000_0000,
        y_ptr + 64 <= 0x1_0000_0000,
    ensures
        is_consistent(post.uint256_mul_events@.last()),
{
    let event = post.uint256_mul_events@.last();
    let result = words_at(post.memory@, x_ptr, 8);
    assert(words_written(event) =~= result);
    assert forall|k: int| 0 <= k < 8 implies event.modulus_memory_records@[k].value
        == event.modulus@[k] by {
        assert((y_ptr + 32 + 4 * k) as u32 == ((y_ptr + 32) as u32 + 4 * k) as u32);
    }
}

/// The bytes of the limbs that hold the byte cells of a sequence of words are the
/// little-endian bytes of the words.
proof fn lemma_word_cell_limbs(limbs: Seq<u32>, words: Seq<u32>)
    requires
        limbs.len() == 4 * words.len(),
        forall|i: int| 0 <= i < limbs.len() ==> limbs[i] == word_cells(words[i / 4])[i % 4],
    ensures
        are_bytes(limbs),
        bytes_of_cells(limbs) == le_bytes_of_words(words),
{
    assert forall|i: int| 0 <= i < limbs.len() implies limbs[i] < 256 && (limbs[i] % 256) as u8
        == word_byte(words[i / 4], i % 4) by {
        assert(limbs[i] == word_byte(words[i / 4], i % 4) as u32);
    }
    assert(bytes_of_cells(limbs) =~= le_bytes_of_words(words));
}

/// The row of a consistent event meets the constraints.
pub proof fn lemma_event_row_accepted(row: Uint256MulCols<u32>, event: Uint256MulEvent)
    requires
        is_consistent(event),
        is_event_row(row, event),
    ensures
        row_accepted(row),
{
    broadcast use vstd::array::group_array_axioms;

    let x = limbs_from_prev_access(row.x_memory@);
    let y = limbs_from_access(row.y_memory@);
    let modulus = limbs_from_access(row.modulus_memory@);
    let written = limbs_written(row.x_memory@);
    let output = row.output.result@;
    assert(row.x_memory@.len() == 8 && row.y_memory@.len() == 8 && row.modulus_memory@.len() == 8);
    assert(event.x_memory_records@.len() == 8);
    let found_words = Seq::new(8, |k: int| event.x_memory_records@[k].prev_value);
    let y_words = Seq::new(8, |k: int| event.y_memory_records@[k].value);
    let modulus_words = Seq::new(8, |k: int| event.modulus_memory_records@[k].value);
    assert(found_words =~= event.x@);
    assert(y_words =~= event.y@);
    assert(modulus_words =~= event.modulus@);
    assert forall|i: int| 0 <= i < 32 implies x[i] == word_cells(found_words[i / 4])[i % 4] by {
        assert(is_write_cols(row.x_memory@[i / 4], event.x_memory_records@[i / 4]));
    }
    assert forall|i: int| 0 <= i < 32 implies written[i] == word_cells(words_written(event)[i / 4])[i
        % 4] by {
        assert(is_write_cols(row.x_memory@[i / 4], event.x_memory_records@[i / 4]));
    }
    assert forall|i: int| 0 <= i < 32 implies y[i] == word_cells(y_words[i / 4])[i % 4] by {
        assert(is_read_cols(row.y_memory@[i / 4], event.y_memory_records@[i / 4]));
    }
    assert forall|i: int| 0 <= i < 32 implies modulus[i] == word_cells(modulus_words[i / 4])[i
        % 4] by {
        assert(is_read_cols(row.modulus_memory@[i / 4], event.modulus_memory_records@[i / 4]));
    }
    lemma_word_cell_limbs(x, found_words);
    lemma_word_cell_limbs(y, y_words);
    lemma_word_cell_limbs(modulus, modulus_words);
    lemma_word_cell_limbs(written, words_written(event));
    lemma_words_value_positive(event.modulus@);
    lemma_le_value_injective(bytes_of_cells(output), bytes_of_cells(written));
    assert forall|i: int| 0 <= i < 32 implies output[i] == written[i] by {
        assert(bytes_of_cells(output)[i] == bytes_of_cells(written)[i]);
    }
    assert(output =~= written);
}

/// The row of the event that a call logs meets the constraints.
pub proof fn lemma_executed_row_accepted(
    pre: SyscallContext,
    post: SyscallContext,
    x_ptr: u32,
    y_ptr: u32,
    row: Uint256MulCols<u32>,
)
    requires
        is_valid_call(x_ptr, y_ptr),
        !modulus_is_zero(pre, y_ptr),
        is_executed(pre, post, x_ptr, y_ptr),
        is_event_row(row, post.uint256_mul_events@.last()),
    ensures
        row_accepted(row),
{
    lemma_executed_event_consistent(pre, post, x_ptr, y_ptr);
    lemma_event_row_accepted(row, post.uint256_mul_events@.last());
}

/// A real row that differs from an accepted row in one limb of the output, and in
/// nothing that is written to memory, is rejected.
pub proof fn lemma_perturbed_limb_rejected(
    row: Uint256MulCols<u32>,
    perturbed: Uint256MulCols<u32>,
    i: int,
)
    requires
        row.is_real == 1,
        row_accepted(row),
        perturbed.is_real == 1,
        perturbed.x_memory == row.x_memory,
        0 <= i < 32,
        perturbed.output.result@[i] != row.output.result@[i],
    ensures
        !row_accepted(perturbed),
{
    if row_accepted(perturbed) {
        assert(perturbed.output.result@[i] == limbs_written(perturbed.x_memory@)[i]);
        assert(row.output.result@[i] == limbs_written(row.x_memory@)[i]);
    }
}

/// A row of padding meets the constraints.
pub proof fn lemma_padding_row_accepted(row: Uint256MulCols<u32>)
    requires
        is_padding_row(row),
    ensures
        row_accepted(row),
{
}

/// Rows of padding appended to a trace leave it accepted if it was, and rejected if it
/// was.
pub proof fn lemma_padding_inert(rows: Seq<Uint256MulCols<u32>>, padding: Seq<Uint256MulCols<u32>>)
    requires
        forall|i: int| 0 <= i < padding.len() ==> is_padding_row(#[trigger] padding[i]),
    ensures
        trace_accepted(rows + padding) <==> trace_accepted(rows),
{
    let all = rows + padding;
    if trace_accepted(rows) {
        assert forall|i: int| 0 <= i < all.len() implies row_accepted(#[trigger] all[i]) by {
            if i < rows.len() {
                assert(all[i] == rows[i]);
            } else {
                assert(all[i] == padding[i - rows.len()]);
                lemma_padding_row_accepted(padding[i - rows.len()]);
            }
        }
    }
    if trace_accepted(all) {
        assert forall|i: int| 0 <= i < rows.len() implies row_accepted(#[trigger] rows[i]) by {
            assert(all[i] == rows[i]);
        }
    }
}


/// Cell `k` of the six cells of a read access: the four bytes of the word, then the
/// shard and the clock of the access before it.
pub open spec fn read_cell(cols: MemoryReadCols<u32>, k: int) -> u32 {
    if k < 4 {
        cols.value@[k]
    } else if k == 4 {
        cols.prev_shard
    } else {
        cols.prev_clk
    }
}

/// Cell `k` of the ten cells of a write access: the four bytes of the word found, the
/// four bytes of the word written, then the shard and the clock of the access before it.
pub open spec fn write_cell(cols: MemoryWriteCols<u32>, k: int) -> u32 {
    if k < 4 {
        cols.prev_value@[k]
    } else if k < 8 {
        cols.value@[k - 4]
    } else if k == 8 {
        cols.prev_shard
    } else {
        cols.prev_clk
    }
}

/// The cells of a group of read accesses, access after access.
pub open spec fn read_group_cells(memory: Seq<MemoryReadCols<u32>>) -> Seq<u32> {
    Seq::new(6 * memory.len(), |j: int| read_cell(memory[j / 6], j % 6))
}

/// The cells of a group of write accesses, access after access.
pub open spec fn write_group_cells(memory: Seq<MemoryWriteCols<u32>>) -> Seq<u32> {
    Seq::new(10 * memory.len(), |j: int| write_cell(memory[j / 10], j % 10))
}

/// The cells of a row in the order of its columns: shard, clock, the two pointers, the
/// accesses to `x`, to `y` and to the modulus, the output, and the flag.
pub open spec fn row_cells(row: Uint256MulCols<u32>) -> Seq<u32> {
    seq![row.shard, row.clk, row.x_ptr, row.y_ptr] + write_group_cells(row.x_memory@)
        + read_group_cells(row.y_memory@) + read_group_cells(row.modulus_memory@)
        + row.output.result@ + seq![row.is_real]
}

/// Appends the cells of a group of read accesses.
fn push_read_group(cells: &mut Vec<u32>, memory: &[MemoryReadCols<u32>; NUM_PHYSICAL_WORDS])
    ensures
        final(cells)@ == old(cells)@ + read_group_cells(memory@),
{
    let ghost base = cells@;
    let mut i: usize = 0;
    while i < 8
        invariant
            i <= 8,
            cells@.len() == base.len() + 6 * i,
            forall|j: int| 0 <= j < base.len() ==> cells@[j] == base[j],
            forall|j: int|
                base.len() <= j < base.len() + 6 * i ==> cells@[j] == read_cell(
                    memory@[(j - base.len()) / 6],
                    (j - base.len()) % 6,
                ),
        decreases 8 - i,
    {
        let cols = memory[i];
        cells.push(cols.value[0]);
        cells.push(cols.value[1]);
        cells.push(cols.value[2]);
        cells.push(cols.value[3]);
        cells.push(cols.prev_shard);
        cells.push(cols.prev_clk);
        i += 1;
    }
    proof {
        assert(cells@ =~= base + read_group_cells(memory@));
    }
}

/// Appends the cells of a group of write accesses.
fn push_write_group(cells: &mut Vec<u32>, memory: &[MemoryWriteCols<u32>; NUM_PHYSICAL_WORDS])
    ensures
        final(cells)@ == old(cells)@ + write_group_cells(memory@),
{
    let ghost base = cells@;
    let mut i: usize = 0;
    while i < 8
        invariant
            i <= 8,
            cells@.len() == base.len() + 10 * i,
            forall|j: int| 0 <= j < base.len() ==> cells@[j] == base[j],
            forall|j: int|
                base.len() <= j < base.len() + 10 * i ==> cells@[j] == write_cell(
                    memory@[(j - base.len()) / 10],
                    (j - base.len()) % 10,
                ),
        decreases 8 - i,
    {
        let cols = memory[i];
        cells.push(cols.prev_value[0]);
        cells.push(cols.prev_value[1]);
        cells.push(cols.prev_value[2]);
        cells.push(cols.prev_value[3]);
        cells.push(cols.value[0]);
        cells.push(cols.value[1]);
        cells.push(cols.value[2]);
        cells.push(cols.value[3]);
        cells.push(cols.prev_shard);
        cells.push(cols.prev_clk);
        i += 1;
    }
    proof {
        assert(cells@ =~= base + write_group_cells(memory@));
    }
}

impl Uint256MulCols<u32> {
    /// The cells of the row in the order of its columns, [`NUM_COLS`] of them.
    pub fn to_cells(&self) -> (cells: Vec<u32>)
        ensures
            cells@ == row_cells(*self),
            cells@.len() == NUM_COLS,
    {
        let mut cells: Vec<u32> = Vec::new();
        cells.push(self.shard);
        cells.push(self.clk);
        cells.push(self.x_ptr);
        cells.push(self.y_ptr);
        proof {
            assert(cells@ =~= seq![self.shard, self.clk, self.x_ptr, self.y_ptr]);
        }
        push_write_group(&mut cells, &self.x_memory);
        push_read_group(&mut cells, &self.y_memory);
        push_read_group(&mut cells, &self.modulus_memory);
        let ghost front = cells@;
        let mut i: usize = 0;
        while i < 32
            invariant
                i <= 32,
                cells@ == front + self.output.result@.take(i as int),
            decreases 32 - i,
        {
            cells.push(self.output.result[i]);
            i += 1;
            proof {
                assert(cells@ =~= front + self.output.result@.take(i as int));
            }
        }
        proof {
            assert(self.output.result@.take(32) =~= self.output.result@);
        }
        cells.push(self.is_real);
        proof {
            assert(cells@ =~= row_cells(*self));
        }
        cells
    }
}


/// One access that a real row hands to the memory argument: where and when it took
/// place, the word before it and the word after it as byte cells, and the shard and
/// clock of the access before it. A read leaves the word as it was.
#[derive(Debug, Clone, Copy, PartialEq, Eq)]
pub struct MemoryAccess {
    pub shard: u32,
    pub clk: u32,
    pub addr: u64,
    pub prev_value: [u32; 4],
    pub value: [u32; 4],
    pub prev_shard: u32,
    pub prev_clk: u32,
}

/// The access that a group of write columns describes, at `addr`.
pub open spec fn write_access_of(row: Uint256MulCols<u32>, cols: MemoryWriteCols<u32>, addr: int) -> MemoryAccess {
    MemoryAccess {
        shard: row.shard,
        clk: row.clk,
        addr: addr as u64,
        prev_value: cols.prev_value,
        value: cols.value,
        prev_shard: cols.prev_shard,
        prev_clk: cols.prev_clk,
    }
}

/// The access that a group of read columns describes, at `addr`.
pub open spec fn read_access_of(row: Uint256MulCols<u32>, cols: MemoryReadCols<u32>, addr: int) -> MemoryAccess {
    MemoryAccess {
        shard: row.shard,
        clk: row.clk,
        addr: addr as u64,
        prev_value: cols.value,
        value: cols.value,
        prev_shard: cols.prev_shard,
        prev_clk: cols.prev_clk,
    }
}

/// The accesses that a row hands to the memory argument. A row that is not real hands
/// over none. A real row hands over the eight accesses to `x`, each a read and a write in
/// one, at the words from `x_ptr` on, and then the sixteen reads of `y` and of the
/// modulus at the words from `y_ptr` on.
pub open spec fn memory_accesses_of(row: Uint256MulCols<u32>) -> Seq<MemoryAccess> {
    if row.is_real != 1 {
        Seq::empty()
    } else {
        Seq::new(
            24,
            |i: int|
                if i < 8 {
                    write_access_of(row, row.x_memory@[i], row.x_ptr + 4 * i)
                } else if i < 16 {
                    read_access_of(row, row.y_memory@[i - 8], row.y_ptr + 4 * (i - 8))
                } else {
                    read_access_of(row, row.modulus_memory@[i - 16], row.y_ptr + 4 * (i - 8))
                },
        )
    }
}

impl Uint256MulChip {
    /// The accesses that the row hands to the memory argument.
    pub fn memory_accesses(&self, row: &Uint256MulCols<u32>) -> (accesses: Vec<MemoryAccess>)
        ensures
            accesses@ == memory_accesses_of(*row),
    {
        let mut accesses: Vec<MemoryAccess> = Vec::new();
        if row.is_real != 1 {
            proof {
                assert(accesses@ =~= memory_accesses_of(*row));
            }
            return accesses;
        }
        let ghost all = memory_accesses_of(*row);
        let mut i: usize = 0;
        while i < 8
            invariant
                i <= 8,
                row.is_real == 1,
                all == memory_accesses_of(*row),
                accesses@.len() == i,
                forall|k: int| 0 <= k < i ==> accesses@[k] == all[k],
            decreases 8 - i,
        {
            let cols = row.x_memory[i];
            accesses.push(
                MemoryAccess {
                    shard: row.shard,
                    clk: row.clk,
                    addr: row.x_ptr as u64 + 4 * (i as u64),
                    prev_value: cols.prev_value,
                    value: cols.value,
                    prev_shard: cols.prev_shard,
                    prev_clk: cols.prev_clk,
                },
            );
            i += 1;
        }
        while i < 24
            invariant
                8 <= i <= 24,
                row.is_real == 1,
                all == memory_accesses_of(*row),
                accesses@.len() == i,
                forall|k: int| 0 <= k < i ==> accesses@[k] == all[k],
            decreases 24 - i,
        {
            let cols = if i < 16 {
                row.y_memory[i - 8]
            } else {
                row.modulus_memory[i - 16]
            };
            accesses.push(
                MemoryAccess {
                    shard: row.shard,
                    clk: row.clk,
                    addr: row.y_ptr as u64 + 4 * ((i - 8) as u64),
                    prev_value: cols.value,
                    value: cols.value,
                    prev_shard: cols.prev_shard,
                    prev_clk: cols.prev_clk,
                },
            );
            i += 1;
        }
        proof {
            assert(accesses@ =~= all);
        }
        accesses
    }
}

} // verus!
