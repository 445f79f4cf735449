use uint256_precompile::uint256::{
    cells_to_bytes, event_row, is_aligned_call, padding_row, word_to_cells, MemoryEntry, MemoryReadRecord,
    MemoryWriteRecord, SyscallContext, Uint256MulChip, Uint256MulError, Uint256MulEvent, NUM_COLS,
    UINT256_MUL_SYSCALL_ID,
};

fn context_with(x_ptr: u32, x: [u32; 8], y_ptr: u32, y: [u32; 8], modulus: [u32; 8]) -> SyscallContext {
    let mut rt = SyscallContext::new(3, 1000);
    for i in 0..8u32 {
        rt.store(x_ptr + 4 * i, x[i as usize]);
        rt.store(y_ptr + 4 * i, y[i as usize]);
        rt.store(y_ptr + 32 + 4 * i, modulus[i as usize]);
    }
    rt
}

fn small(v: u32) -> [u32; 8] {
    [v, 0, 0, 0, 0, 0, 0, 0]
}

#[test]
fn execute_writes_product_over_x() {
    let mut rt = context_with(0x100, small(7), 0x200, small(6), small(5));
    let r = Uint256MulChip::new().execute(&mut rt, 0x100, 0x200);
    assert_eq!(r, Ok(None));
    assert_eq!(rt.slice_unsafe(0x100, 8), vec![2, 0, 0, 0, 0, 0, 0, 0]);
    // y and the modulus are as they were.
    assert_eq!(rt.slice_unsafe(0x200, 8), vec![6, 0, 0, 0, 0, 0, 0, 0]);
    assert_eq!(rt.slice_unsafe(0x220, 8), vec![5, 0, 0, 0, 0, 0, 0, 0]);
    assert_eq!(rt.clk, 1000);
    assert_eq!(rt.current_shard, 3);
}

#[test]
fn execute_full_width_operands() {
    let x = [0, 0, 0, 0, 0, 0, 0, 0x8000_0000];
    let mut rt = context_with(0x40, x, 0x1000, small(2), [u32::MAX; 8]);
    assert_eq!(Uint256MulChip::new().execute(&mut rt, 0x40, 0x1000), Ok(None));
    assert_eq!(rt.slice_unsafe(0x40, 8), vec![1, 0, 0, 0, 0, 0, 0, 0]);
}

#[test]
fn execute_logs_one_event() {
    let mut rt = context_with(0x100, small(7), 0x200, small(6), small(5));
    assert!(Uint256MulChip::new().execute(&mut rt, 0x100, 0x200).is_ok());
    assert_eq!(rt.uint256_mul_events.len(), 1);
    let event = &rt.uint256_mul_events[0];
    assert_eq!(event.shard, 3);
    assert_eq!(event.clk, 1000);
    assert_eq!(event.x_ptr, 0x100);
    assert_eq!(event.y_ptr, 0x200);
    assert_eq!(event.x, vec![7, 0, 0, 0, 0, 0, 0, 0]);
    assert_eq!(event.y, vec![6, 0, 0, 0, 0, 0, 0, 0]);
    assert_eq!(event.modulus, vec![5, 0, 0, 0, 0, 0, 0, 0]);
    assert_eq!(
        event.x_memory_records[0],
        MemoryWriteRecord {
            value: 2,
            shard: 3,
            timestamp: 1000,
            prev_value: 7,
            prev_shard: 0,
            prev_timestamp: 0,
        }
    );
    assert_eq!(
        event.y_memory_records[0],
        MemoryReadRecord { value: 6, shard: 3, timestamp: 1000, prev_shard: 0, prev_timestamp: 0 }
    );
    assert_eq!(
        event.modulus_memory_records[0],
        MemoryReadRecord { value: 5, shard: 3, timestamp: 1000, prev_shard: 0, prev_timestamp: 0 }
    );
    assert_eq!(event.modulus_memory_records[7].value, 0);
}

#[test]
fn execute_stamps_the_cells_it_touches() {
    let mut rt = context_with(0x100, small(7), 0x200, small(6), small(5));
    rt.store(0x300, 99);
    assert!(Uint256MulChip::new().execute(&mut rt, 0x100, 0x200).is_ok());
    assert_eq!(rt.memory.get(&0x100), Some(&MemoryEntry { value: 2, shard: 3, timestamp: 1000 }));
    assert_eq!(rt.memory.get(&0x200), Some(&MemoryEntry { value: 6, shard: 3, timestamp: 1000 }));
    assert_eq!(rt.memory.get(&0x220), Some(&MemoryEntry { value: 5, shard: 3, timestamp: 1000 }));
    assert_eq!(rt.memory.get(&0x300), Some(&MemoryEntry { value: 99, shard: 0, timestamp: 0 }));
}

#[test]
fn execute_refuses_zero_modulus() {
    let mut rt = context_with(0x100, small(7), 0x200, small(6), small(0));
    let r = Uint256MulChip::new().execute(&mut rt, 0x100, 0x200);
    assert_eq!(r, Err(Uint256MulError::ModulusIsZero));
    assert_eq!(rt.uint256_mul_events.len(), 0);
    assert_eq!(rt.slice_unsafe(0x100, 8), vec![7, 0, 0, 0, 0, 0, 0, 0]);
    assert_eq!(rt.memory.get(&0x200), Some(&MemoryEntry { value: 6, shard: 0, timestamp: 0 }));
}

#[test]
fn memory_reads_and_writes_leave_records() {
    let mut rt = SyscallContext::new(2, 50);
    assert_eq!(rt.word(8), 0);
    let first = rt.mw(8, 11);
    assert_eq!(
        first,
        MemoryWriteRecord {
            value: 11,
            shard: 2,
            timestamp: 50,
            prev_value: 0,
            prev_shard: 0,
            prev_timestamp: 0,
        }
    );
    rt.clk = 60;
    let read = rt.mr(8);
    assert_eq!(
        read,
        MemoryReadRecord { value: 11, shard: 2, timestamp: 60, prev_shard: 2, prev_timestamp: 50 }
    );
    let (records, words) = rt.mr_slice(4, 2);
    assert_eq!(words, vec![0, 11]);
    assert_eq!(records[1].prev_timestamp, 60);
    let written = rt.mw_slice(4, &[5, 6]);
    assert_eq!(written[1].prev_value, 11);
    assert_eq!(rt.slice_unsafe(4, 2), vec![5, 6]);
}

fn executed_event() -> Uint256MulEvent {
    let x = [0x1234_5678, 9, 0, 0, 0, 0, 0, 1];
    let y = [0xffff_ffff, 0xabcd, 0, 0, 0, 0, 0, 0];
    let m = [0x0000_0061, 0, 0, 0, 0, 0, 0, 0x4000_0000];
    let mut rt = context_with(0x100, x, 0x200, y, m);
    assert!(Uint256MulChip::new().execute(&mut rt, 0x100, 0x200).is_ok());
    rt.uint256_mul_events[0].clone()
}

#[test]
fn trace_has_one_row_per_event_and_padding() {
    let chip = Uint256MulChip::new();
    let events = vec![executed_event(), executed_event(), executed_event()];
    let rows = chip.generate_trace(&events, 16);
    assert_eq!(rows.len(), 16);
    for row in &rows[..3] {
        assert_eq!(row.is_real, 1);
        assert_eq!(row.shard, 3);
        assert_eq!(row.clk, 1000);
        assert_eq!(row.x_ptr, 0x100);
        assert_eq!(row.y_ptr, 0x200);
    }
    for row in &rows[3..] {
        assert_eq!(row.is_real, 0);
        assert_eq!(row.output.result, [0u32; 32]);
        assert_eq!(row.shard, 0);
    }
}

#[test]
fn trace_is_not_padded_beyond_its_events() {
    let chip = Uint256MulChip::new();
    let events = vec![executed_event(), executed_event()];
    assert_eq!(chip.generate_trace(&events, 1).len(), 2);
    assert_eq!(chip.generate_trace(&events, 2).len(), 2);
    assert_eq!(chip.generate_trace(&Vec::new(), 0).len(), 0);
    assert_eq!(chip.generate_trace(&Vec::new(), 4).len(), 4);
}

#[test]
fn event_row_holds_records_and_product() {
    let mut rt = context_with(0x100, small(7), 0x200, small(0x0102_0304), small(0x1000_0000));
    assert!(Uint256MulChip::new().execute(&mut rt, 0x100, 0x200).is_ok());
    let row = event_row(&rt.uint256_mul_events[0]);
    // 7 * 0x01020304 = 0x070e151c, below the modulus.
    let mut expected = [0u32; 32];
    expected[0] = 0x1c;
    expected[1] = 0x15;
    expected[2] = 0x0e;
    expected[3] = 0x07;
    assert_eq!(row.output.result, expected);
    assert_eq!(row.x_memory[0].prev_value, [7, 0, 0, 0]);
    assert_eq!(row.x_memory[0].value, [0x1c, 0x15, 0x0e, 0x07]);
    assert_eq!(row.y_memory[0].value, [4, 3, 2, 1]);
    assert_eq!(row.modulus_memory[0].value, [0, 0, 0, 0x10]);
    assert_eq!(row.y_memory[0].prev_shard, 0);
}

#[test]
fn rows_of_a_trace_are_accepted() {
    let chip = Uint256MulChip::new();
    let events = vec![executed_event()];
    let rows = chip.generate_trace(&events, 4);
    for row in &rows {
        assert!(chip.eval(row));
    }
    assert!(chip.eval(&padding_row()));
}

#[test]
fn perturbed_limb_is_rejected() {
    let chip = Uint256MulChip::new();
    let row = event_row(&executed_event());
    assert!(chip.eval(&row));
    for i in [0usize, 5, 31] {
        let mut bad = row;
        bad.output.result[i] = (bad.output.result[i] + 1) % 256;
        assert!(!chip.eval(&bad));
    }
}

#[test]
fn wrong_product_is_rejected_even_if_written() {
    let chip = Uint256MulChip::new();
    let mut bad = event_row(&executed_event());
    bad.output.result[0] = (bad.output.result[0] + 1) % 256;
    bad.x_memory[0].value[0] = bad.output.result[0];
    assert!(!chip.eval(&bad));
}

#[test]
fn non_boolean_flag_is_rejected() {
    let chip = Uint256MulChip::new();
    let mut row = padding_row();
    row.is_real = 2;
    assert!(!chip.eval(&row));
}

#[test]
fn real_row_with_zero_modulus_is_rejected() {
    let chip = Uint256MulChip::new();
    let mut row = padding_row();
    row.is_real = 1;
    assert!(!chip.eval(&row));
}

#[test]
fn cell_that_is_no_byte_is_rejected() {
    let chip = Uint256MulChip::new();
    let mut row = event_row(&executed_event());
    row.y_memory[2].value[1] += 256;
    assert!(!chip.eval(&row));
}

#[test]
fn receipt_is_published_by_real_rows_only() {
    let chip = Uint256MulChip::new();
    let row = event_row(&executed_event());
    assert_eq!(chip.syscall_receipt(&row), Some((3, 1000, UINT256_MUL_SYSCALL_ID, 0x100, 0x200)));
    assert_eq!(chip.syscall_receipt(&padding_row()), None);
}

#[test]
fn chip_constants() {
    let chip = Uint256MulChip::new();
    assert_eq!(chip.name(), "Uint256MulMod");
    assert_eq!(chip.num_extra_cycles(), 0);
    assert_eq!(chip.width(), NUM_COLS);
    assert!(!chip.included(&Vec::new()));
    assert!(chip.included(&vec![executed_event()]));
}

#[test]
fn cells_of_words_and_bytes_of_cells() {
    assert_eq!(word_to_cells(0x0102_0304), [4, 3, 2, 1]);
    assert_eq!(cells_to_bytes(&[1, 255, 0]), Some(vec![1, 255, 0]));
    assert_eq!(cells_to_bytes(&[1, 256]), None);
}

#[test]
fn row_cells_are_in_column_order() {
    let row = event_row(&executed_event());
    let cells = row.to_cells();
    assert_eq!(cells.len(), NUM_COLS);
    assert_eq!(&cells[..4], &[3, 1000, 0x100, 0x200]);
    // The first access to x: the word found, the word written, then shard and clock.
    assert_eq!(&cells[4..8], &[0x78, 0x56, 0x34, 0x12]);
    assert_eq!(&cells[8..12], &row.x_memory[0].value);
    assert_eq!(&cells[12..14], &[0, 0]);
    // The first access to y follows the eight accesses to x.
    assert_eq!(&cells[84..88], &[0xff, 0xff, 0xff, 0xff]);
    // The output stands before the flag.
    assert_eq!(&cells[180..212], &row.output.result);
    assert_eq!(cells[212], 1);
    assert_eq!(padding_row().to_cells(), vec![0u32; NUM_COLS]);
}

#[test]
fn call_arguments_are_checked() {
    assert!(is_aligned_call(0x100, 0x200));
    assert!(!is_aligned_call(0x101, 0x200));
    assert!(!is_aligned_call(0x100, 0x202));
    assert!(!is_aligned_call(0x100, 0x100));
    assert!(is_aligned_call(0xffff_ffe0, 0xffff_ffc0));
    assert!(!is_aligned_call(0xffff_ffe4, 0x200));
    assert!(!is_aligned_call(0x100, 0xffff_ffc4));
}

#[test]
fn real_rows_hand_their_accesses_to_memory() {
    let chip = Uint256MulChip::new();
    let row = event_row(&executed_event());
    let accesses = chip.memory_accesses(&row);
    assert_eq!(accesses.len(), 24);
    assert_eq!(accesses[0].addr, 0x100);
    assert_eq!(accesses[0].prev_value, [0x78, 0x56, 0x34, 0x12]);
    assert_eq!(accesses[0].value, row.x_memory[0].value);
    assert_eq!(accesses[7].addr, 0x11c);
    assert_eq!(accesses[8].addr, 0x200);
    assert_eq!(accesses[8].value, [0xff, 0xff, 0xff, 0xff]);
    assert_eq!(accesses[8].prev_value, accesses[8].value);
    assert_eq!(accesses[16].addr, 0x220);
    assert_eq!(accesses[16].value, [0x61, 0, 0, 0]);
    assert_eq!(accesses[23].addr, 0x23c);
    assert_eq!(accesses[23].value, [0, 0, 0, 0x40]);
    for access in &accesses {
        assert_eq!((access.shard, access.clk), (3, 1000));
    }
    assert!(chip.memory_accesses(&padding_row()).is_empty());
}
