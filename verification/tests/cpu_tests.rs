use chip8::cpu::{Chip8Error, Cpu, MEMSIZE};
use chip8::keyboard::VKey;

fn boot(code: &[u8]) -> Cpu {
    Cpu::new(code, 1000, 0).unwrap()
}

#[test]
fn load_then_add_runs_two_ticks() {
    // LD V0,5 then ADD V0,3
    let mut cpu = boot(&[0x60, 0x05, 0x70, 0x03]);
    cpu.tick(0).unwrap();
    cpu.tick(0).unwrap();
    assert_eq!(cpu.v[0], 8);
    assert_eq!(cpu.pc, 0x204);
    assert_eq!(cpu.sp, 0);
    assert_eq!(cpu.v[0xF], 0);
}

#[test]
fn call_then_ret_returns_past_the_call() {
    // CALL 0x300; at 0x300 a RET
    let mut code = vec![0u8; 0x102];
    code[0] = 0x23;
    code[1] = 0x00;
    code[0x100] = 0x00;
    code[0x101] = 0xEE;
    let mut cpu = boot(&code);
    cpu.tick(0).unwrap();
    assert_eq!(cpu.pc, 0x300);
    assert_eq!(cpu.sp, 1);
    cpu.tick(0).unwrap();
    assert_eq!(cpu.pc, 0x202);
    assert_eq!(cpu.sp, 0);
}

#[test]
fn unknown_opcode_is_fatal_and_identified() {
    let mut cpu = boot(&[0x00, 0x00]);
    let err = cpu.tick(0).unwrap_err();
    assert_eq!(err, Chip8Error::UnknownOpcode { opcode: 0, pc: 0x200 });
    assert_eq!(cpu.pc, 0x200);
}

#[test]
fn oversized_program_is_rejected_at_load() {
    let code = vec![0u8; MEMSIZE - 0x200 + 1];
    let err = Cpu::new(&code, 1000, 0).unwrap_err();
    assert_eq!(err, Chip8Error::RomTooLarge { size: MEMSIZE - 0x200 + 1 });
    let fits = vec![0u8; MEMSIZE - 0x200];
    assert!(Cpu::new(&fits, 1000, 0).is_ok());
}

#[test]
fn skip_advances_two_four_or_six() {
    // taken skip over a two-byte instruction: +4
    let mut cpu = boot(&[0x60, 0x05, 0x30, 0x05, 0x00, 0x00, 0x61, 0x07]);
    cpu.tick(0).unwrap();
    cpu.tick(0).unwrap();
    assert_eq!(cpu.pc, 0x206);
    // not taken: +2
    let mut cpu = boot(&[0x30, 0x05]);
    cpu.tick(0).unwrap();
    assert_eq!(cpu.pc, 0x202);
    // taken skip over the four-byte extended-address load: +6
    let mut cpu = boot(&[0x60, 0x05, 0x30, 0x05, 0xF0, 0x00, 0x03, 0x00, 0x61, 0x07]);
    cpu.tick(0).unwrap();
    cpu.tick(0).unwrap();
    assert_eq!(cpu.pc, 0x208);
}

#[test]
fn add_with_carry_flag() {
    // V0=200, V1=100, ADD V0,V1
    let mut cpu = boot(&[0x60, 0xC8, 0x61, 0x64, 0x80, 0x14]);
    for _ in 0..3 {
        cpu.tick(0).unwrap();
    }
    assert_eq!(cpu.v[0], 44);
    assert_eq!(cpu.v[0xF], 1);
    // no carry case
    let mut cpu = boot(&[0x60, 0x01, 0x61, 0x02, 0x80, 0x14]);
    for _ in 0..3 {
        cpu.tick(0).unwrap();
    }
    assert_eq!(cpu.v[0], 3);
    assert_eq!(cpu.v[0xF], 0);
}

#[test]
fn sub_flags_no_borrow() {
    // V0=5, V1=7, SUB V0,V1: borrow, flag 0, wrap
    let mut cpu = boot(&[0x60, 0x05, 0x61, 0x07, 0x80, 0x15]);
    for _ in 0..3 {
        cpu.tick(0).unwrap();
    }
    assert_eq!(cpu.v[0], 254);
    assert_eq!(cpu.v[0xF], 0);
    // V0=7, V1=5: no borrow, flag 1
    let mut cpu = boot(&[0x60, 0x07, 0x61, 0x05, 0x80, 0x15]);
    for _ in 0..3 {
        cpu.tick(0).unwrap();
    }
    assert_eq!(cpu.v[0], 2);
    assert_eq!(cpu.v[0xF], 1);
}

#[test]
fn subn_reverses_the_operands() {
    // V0=5, V1=7, SUBN V0,V1: V0 = V1-V0 = 2, flag 1
    let mut cpu = boot(&[0x60, 0x05, 0x61, 0x07, 0x80, 0x17]);
    for _ in 0..3 {
        cpu.tick(0).unwrap();
    }
    assert_eq!(cpu.v[0], 2);
    assert_eq!(cpu.v[0xF], 1);
}

#[test]
fn shifts_read_the_second_operand() {
    // V1=0x81; SHR V0,V1: V0 = 0x40, flag = 1
    let mut cpu = boot(&[0x61, 0x81, 0x80, 0x16]);
    cpu.tick(0).unwrap();
    cpu.tick(0).unwrap();
    assert_eq!(cpu.v[0], 0x40);
    assert_eq!(cpu.v[0xF], 1);
    // V1=0x81; SHL V0,V1: V0 = 0x02, flag = 1
    let mut cpu = boot(&[0x61, 0x81, 0x80, 0x1E]);
    cpu.tick(0).unwrap();
    cpu.tick(0).unwrap();
    assert_eq!(cpu.v[0], 0x02);
    assert_eq!(cpu.v[0xF], 1);
}

#[test]
fn jump_with_offset_always_adds_v0() {
    // V0=4; B3xx uses V0 even though the opcode names V3
    let mut cpu = boot(&[0x60, 0x04, 0xB3, 0x00]);
    cpu.tick(0).unwrap();
    cpu.tick(0).unwrap();
    assert_eq!(cpu.pc, 0x304);
}

#[test]
fn masked_random_byte_with_zero_mask_is_zero() {
    // V0=9; RND V0,0x00 must clear V0 whatever byte was drawn
    let mut cpu = boot(&[0x60, 0x09, 0xC0, 0x00]);
    cpu.tick(0).unwrap();
    cpu.tick(0).unwrap();
    assert_eq!(cpu.v[0], 0);
    assert_eq!(cpu.pc, 0x204);
}

#[test]
fn bcd_store_writes_three_digits() {
    // V0=234; LD I,0x400; LD B,V0
    let mut cpu = boot(&[0x60, 0xEA, 0xA4, 0x00, 0xF0, 0x33]);
    for _ in 0..3 {
        cpu.tick(0).unwrap();
    }
    assert_eq!(&cpu.memory[0x400..0x403], &[2, 3, 4]);
}

#[test]
fn register_block_store_and_load() {
    // V0..V2 = 1,2,3; LD I,0x400; LD [I],V2; LD V5..V7 unchanged by
    // reloading into 0..2 after clobbering
    let mut cpu = boot(&[
        0x60, 0x01, 0x61, 0x02, 0x62, 0x03, 0xA4, 0x00, 0xF2, 0x55, 0x60, 0x00, 0x61, 0x00, 0x62,
        0x00, 0xF2, 0x65,
    ]);
    for _ in 0..9 {
        cpu.tick(0).unwrap();
    }
    assert_eq!(cpu.v[0], 1);
    assert_eq!(cpu.v[1], 2);
    assert_eq!(cpu.v[2], 3);
    assert_eq!(&cpu.memory[0x400..0x403], &[1, 2, 3]);
}

#[test]
fn register_range_transfer_both_ways() {
    // V2..V4 = 7,8,9; LD I,0x500; 5xy2 stores V2-V4; 5xy3 loads V5-V7
    let mut cpu = boot(&[
        0x62, 0x07, 0x63, 0x08, 0x64, 0x09, 0xA5, 0x00, 0x52, 0x42, 0xA4, 0xFD, 0x55, 0x73,
    ]);
    for _ in 0..7 {
        cpu.tick(0).unwrap();
    }
    assert_eq!(&cpu.memory[0x500..0x503], &[7, 8, 9]);
    // the load read memory 0x4FD..0x500, which is zero
    assert_eq!(cpu.v[5], 0);
    assert_eq!(cpu.v[6], 0);
    assert_eq!(cpu.v[7], 0);
}

#[test]
fn reversed_register_range_is_an_error() {
    // 5xy2 with y < x
    let mut cpu = boot(&[0x53, 0x12]);
    let err = cpu.tick(0).unwrap_err();
    assert_eq!(err, Chip8Error::RegisterRange { opcode: 0x5312, pc: 0x200 });
}

#[test]
fn block_transfer_past_memory_end_is_an_error() {
    // LD I,0xFFF via F000 then ADD I repeatedly is long; use F000 directly
    let mut cpu = boot(&[0xF0, 0x00, 0xFF, 0xFE, 0xF5, 0x55]);
    cpu.tick(0).unwrap();
    assert_eq!(cpu.i, 0xFFFE);
    let err = cpu.tick(0).unwrap_err();
    assert_eq!(err, Chip8Error::MemoryRange { opcode: 0xF555, pc: 0x204 });
}

#[test]
fn stack_underflow_and_overflow_are_errors() {
    let mut cpu = boot(&[0x00, 0xEE]);
    assert_eq!(cpu.tick(0).unwrap_err(), Chip8Error::StackUnderflow { pc: 0x200 });
    // CALL 0x200 forever: the sixteenth call overflows
    let mut cpu = boot(&[0x22, 0x00]);
    for _ in 0..15 {
        cpu.tick(0).unwrap();
    }
    assert_eq!(cpu.tick(0).unwrap_err(), Chip8Error::StackOverflow { pc: 0x200 });
}

#[test]
fn extended_address_load_reads_a_full_word() {
    let mut cpu = boot(&[0xF0, 0x00, 0x12, 0x34]);
    cpu.tick(0).unwrap();
    assert_eq!(cpu.i, 0x1234);
    assert_eq!(cpu.pc, 0x204);
}

#[test]
fn index_add_wraps_sixteen_bits() {
    // F000 FFFF; V0=2; ADD I,V0
    let mut cpu = boot(&[0xF0, 0x00, 0xFF, 0xFF, 0x60, 0x02, 0xF0, 0x1E]);
    for _ in 0..3 {
        cpu.tick(0).unwrap();
    }
    assert_eq!(cpu.i, 0x0001);
}

#[test]
fn glyph_pointers_use_the_font_layout() {
    // V0=3; LD F,V0 then LD hires F,V0
    let mut cpu = boot(&[0x60, 0x03, 0xF0, 0x29, 0xF0, 0x30]);
    cpu.tick(0).unwrap();
    cpu.tick(0).unwrap();
    assert_eq!(cpu.i, 15);
    cpu.tick(0).unwrap();
    assert_eq!(cpu.i, 3 * 10 + 80);
    // the built-in glyphs sit below the program
    assert_eq!(cpu.memory[0], 0xF0);
    assert_eq!(cpu.memory[1], 0x90);
    assert_eq!(cpu.memory[80], 0x3C);
}

#[test]
fn delay_timer_round_trip_through_opcodes() {
    // V0=60; LD DT,V0; LD V1,DT
    let mut cpu = boot(&[0x60, 0x3C, 0xF0, 0x15, 0xF1, 0x07]);
    cpu.tick(1_000).unwrap();
    cpu.tick(1_000).unwrap();
    cpu.tick(1_000).unwrap();
    assert_eq!(cpu.v[1], 60);
    assert_eq!(cpu.dt.get_reg(501_000), 30);
}

#[test]
fn sound_timer_arms_the_audio_port() {
    // F000 0x0400 is not needed; default pattern is 0xAA * 16
    // V0=60; LD ST,V0
    let mut cpu = boot(&[0x60, 0x3C, 0xF0, 0x18]);
    cpu.tick(0).unwrap();
    let out = cpu.tick(0).unwrap();
    let arm = out.audio.expect("arming the sound timer must emit audio");
    assert_eq!(arm.pattern, vec![0xAA; 16]);
    assert_eq!(arm.duration_micros, 60 * 1_000_000 / 60);
    // arming with zero emits nothing
    let mut cpu = boot(&[0x60, 0x00, 0xF0, 0x18]);
    cpu.tick(0).unwrap();
    let out = cpu.tick(0).unwrap();
    assert!(out.audio.is_none());
}

#[test]
fn pattern_buffer_loads_from_memory() {
    // LD I,0x200 (the program itself) then F002
    let mut cpu = boot(&[0xA2, 0x00, 0xF0, 0x02]);
    cpu.tick(0).unwrap();
    cpu.tick(0).unwrap();
    assert_eq!(cpu.sound_memory[0], 0xA2);
    assert_eq!(cpu.sound_memory[1], 0x00);
    assert_eq!(cpu.sound_memory[2], 0xF0);
    assert_eq!(cpu.sound_memory[3], 0x02);
}

#[test]
fn wait_for_key_retries_until_a_fresh_press() {
    let mut cpu = boot(&[0xF0, 0x0A]);
    let out = cpu.tick(0).unwrap();
    assert!(!out.executed);
    assert_eq!(cpu.pc, 0x200);
    cpu.keyboard.keys[7] = VKey::Down;
    let out = cpu.tick(0).unwrap();
    assert!(out.executed);
    assert_eq!(cpu.v[0], 7);
    assert_eq!(cpu.pc, 0x202);
}

#[test]
fn held_key_is_reported_as_fresh_only_once() {
    let mut cpu = boot(&[0xF0, 0x0A, 0x12, 0x00]);
    cpu.keyboard.keys[3] = VKey::Down;
    let out = cpu.tick(0).unwrap();
    assert!(out.executed);
    assert_eq!(cpu.v[0], 3);
    // jump back and wait again with the key still held: no fresh press
    cpu.tick(0).unwrap();
    let out = cpu.tick(0).unwrap();
    assert!(!out.executed);
}

#[test]
fn key_skips_test_the_named_key() {
    let mut cpu = boot(&[0x60, 0x04, 0xE0, 0x9E, 0x00, 0x00, 0x61, 0x01]);
    cpu.keyboard.keys[4] = VKey::Down;
    cpu.tick(0).unwrap();
    cpu.tick(0).unwrap();
    assert_eq!(cpu.pc, 0x206);
    // SKNP with the key down does not skip
    let mut cpu = boot(&[0x60, 0x04, 0xE0, 0xA1]);
    cpu.keyboard.keys[4] = VKey::Down;
    cpu.tick(0).unwrap();
    cpu.tick(0).unwrap();
    assert_eq!(cpu.pc, 0x204);
}

#[test]
fn key_index_out_of_range_is_an_error() {
    let mut cpu = boot(&[0x60, 0x20, 0xE0, 0x9E]);
    cpu.tick(0).unwrap();
    assert_eq!(
        cpu.tick(0).unwrap_err(),
        Chip8Error::KeyRange { opcode: 0xE09E, pc: 0x202 },
    );
}

#[test]
fn draw_sets_collision_flag_on_overdraw() {
    // V0=0,V1=0; LD I,font 0; DRW 5 rows twice
    let mut cpu = boot(&[0x60, 0x00, 0x61, 0x00, 0xA0, 0x00, 0xD0, 0x15, 0xD0, 0x15]);
    for _ in 0..4 {
        cpu.tick(0).unwrap();
    }
    assert_eq!(cpu.v[0xF], 0);
    assert!(cpu.display.updated);
    cpu.tick(0).unwrap();
    assert_eq!(cpu.v[0xF], 1);
    // the two draws cancelled: the frame is blank
    let buf = cpu.display.to_buf();
    for &px in buf.iter() {
        assert_eq!(px, cpu.display.colors[0]);
    }
}

#[test]
fn mode_switch_opcode_resizes_the_display() {
    let mut cpu = boot(&[0x00, 0xFF, 0x00, 0xFE]);
    cpu.tick(0).unwrap();
    assert_eq!(cpu.display.width, 128);
    assert_eq!(cpu.display.height, 64);
    assert!(cpu.display.extended);
    cpu.tick(0).unwrap();
    assert_eq!(cpu.display.width, 64);
    assert_eq!(cpu.display.height, 32);
}

#[test]
fn scroll_opcodes_move_the_active_planes() {
    // draw the zero glyph at the origin, scroll down one row
    let mut cpu = boot(&[0xA0, 0x00, 0xD0, 0x11, 0x00, 0xC1]);
    for _ in 0..3 {
        cpu.tick(0).unwrap();
    }
    let buf = cpu.display.to_buf();
    let bg = cpu.display.colors[0];
    for x in 0..64 {
        assert_eq!(buf[x], bg);
    }
    assert_ne!(buf[64], bg);
}

#[test]
fn plane_select_opcode_sets_the_mask() {
    let mut cpu = boot(&[0xF2, 0x01]);
    cpu.tick(0).unwrap();
    assert_eq!(cpu.display.active_planes, 2);
}

#[test]
fn persistent_register_file_saves_and_memory_restores() {
    // V0=9,V1=8; F175 saves V0..V1; FX85 reloads V0..V1 from the bottom
    // of memory, which holds the font
    let mut cpu = boot(&[0x60, 0x09, 0x61, 0x08, 0xF1, 0x75, 0xF1, 0x85]);
    for _ in 0..4 {
        cpu.tick(0).unwrap();
    }
    assert_eq!(cpu.repl[0], 9);
    assert_eq!(cpu.repl[1], 8);
    assert_eq!(cpu.v[0], 0xF0);
    assert_eq!(cpu.v[1], 0x90);
}

#[test]
fn flag_register_save_out_of_range_is_an_error() {
    let mut cpu = boot(&[0xF8, 0x75]);
    assert_eq!(
        cpu.tick(0).unwrap_err(),
        Chip8Error::RegisterRange { opcode: 0xF875, pc: 0x200 },
    );
}

#[test]
fn tick_counts_executed_steps() {
    let mut cpu = boot(&[0x60, 0x01, 0x61, 0x02]);
    assert_eq!(cpu.clock_steps, 0);
    cpu.tick(0).unwrap();
    cpu.tick(0).unwrap();
    assert_eq!(cpu.clock_steps, 2);
}
