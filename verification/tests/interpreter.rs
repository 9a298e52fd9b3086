use chip8::{Chip8, Chip8Error};

fn machine_with(rom: Vec<u8>) -> Chip8 {
    let mut c = Chip8::new();
    assert!(c.load_rom(&rom).is_ok());
    c
}

fn step(c: &mut Chip8) -> Result<(), Chip8Error> {
    assert!(c.can_step());
    c.run()
}

#[test]
fn fresh_machine_state() {
    let c = Chip8::new();
    assert_eq!(c.program_counter(), 0x200);
    assert_eq!(c.address_register(), 0);
    assert_eq!(c.stack_depth(), 0);
    for x in 0..16 {
        assert_eq!(c.register(x), 0);
    }
    assert_eq!(c.screen_buffer().len(), 2048);
    assert!(c.screen_buffer().iter().all(|&p| p == 0));
}

#[test]
fn load_rom_places_bytes_at_0x200() {
    let c = machine_with(vec![0x12, 0x34, 0x56]);
    assert_eq!(c.memory_byte(0x1FF), 0);
    assert_eq!(c.memory_byte(0x200), 0x12);
    assert_eq!(c.memory_byte(0x201), 0x34);
    assert_eq!(c.memory_byte(0x202), 0x56);
    assert_eq!(c.memory_byte(0x203), 0);
}

#[test]
fn load_rom_rejects_oversized_image() {
    let mut c = Chip8::new();
    let big = vec![0xAB; 0xE01];
    assert_eq!(c.load_rom(&big), Err(Chip8Error::OutOfBoundsLoad));
    // Nothing was written.
    assert_eq!(c.memory_byte(0x200), 0);
    let exact = vec![0xCD; 0xE00];
    assert!(c.load_rom(&exact).is_ok());
    assert_eq!(c.memory_byte(0xFFF), 0xCD);
}

#[test]
fn ld_vx_sets_register() {
    let mut c = machine_with(vec![0x6A, 0x42]);
    assert!(step(&mut c).is_ok());
    assert_eq!(c.register(0xA), 0x42);
    assert_eq!(c.program_counter(), 0x202);
}

#[test]
fn ld_i_sets_address_register() {
    let mut c = machine_with(vec![0xA1, 0x23]);
    assert!(step(&mut c).is_ok());
    assert_eq!(c.address_register(), 0x123);
    assert_eq!(c.program_counter(), 0x202);
}

#[test]
fn two_instruction_sequence() {
    // LD V0, 0x05 then LD I, 0x123.
    let mut c = machine_with(vec![0x60, 0x05, 0xA1, 0x23]);
    assert!(step(&mut c).is_ok());
    assert!(step(&mut c).is_ok());
    assert_eq!(c.register(0), 5);
    assert_eq!(c.address_register(), 0x123);
    assert_eq!(c.program_counter(), 0x204);
}

#[test]
fn jp_sets_pc_exactly() {
    let mut c = machine_with(vec![0x12, 0x50]);
    assert!(step(&mut c).is_ok());
    assert_eq!(c.program_counter(), 0x250);
}

#[test]
fn se_skips_when_equal() {
    // LD V1, 0x07 then SE V1, 0x07.
    let mut c = machine_with(vec![0x61, 0x07, 0x31, 0x07]);
    assert!(step(&mut c).is_ok());
    let before = c.program_counter();
    assert!(step(&mut c).is_ok());
    assert_eq!(c.program_counter(), before + 4);
}

#[test]
fn se_advances_by_two_when_unequal() {
    // LD V1, 0x07 then SE V1, 0x08.
    let mut c = machine_with(vec![0x61, 0x07, 0x31, 0x08]);
    assert!(step(&mut c).is_ok());
    let before = c.program_counter();
    assert!(step(&mut c).is_ok());
    assert_eq!(c.program_counter(), before + 2);
}

#[test]
fn add_wraps_without_touching_vf() {
    // LD V2, 0xFF; ADD V2, 0x02.
    let mut c = machine_with(vec![0x62, 0xFF, 0x72, 0x02]);
    assert!(step(&mut c).is_ok());
    assert!(step(&mut c).is_ok());
    assert_eq!(c.register(2), 0x01);
    assert_eq!(c.register(0xF), 0);
    assert_eq!(c.program_counter(), 0x204);
}

#[test]
fn add_exact_sum() {
    // LD V3, 0x10; ADD V3, 0x22.
    let mut c = machine_with(vec![0x63, 0x10, 0x73, 0x22]);
    assert!(step(&mut c).is_ok());
    assert!(step(&mut c).is_ok());
    assert_eq!(c.register(3), 0x32);
}

#[test]
fn rnd_with_zero_mask_is_always_zero() {
    // RND V4, 0x00 in a row, many draws: the mask wins every time.
    let mut rom = Vec::new();
    for _ in 0..16 {
        rom.push(0xC4);
        rom.push(0x00);
    }
    let mut c = machine_with(rom);
    for _ in 0..16 {
        assert!(step(&mut c).is_ok());
        assert_eq!(c.register(4), 0);
    }
}

#[test]
fn rnd_respects_mask_bits() {
    let mut rom = Vec::new();
    for _ in 0..16 {
        rom.push(0xC5);
        rom.push(0x0F);
    }
    let mut c = machine_with(rom);
    for _ in 0..16 {
        assert!(step(&mut c).is_ok());
        assert_eq!(c.register(5) & 0xF0, 0);
    }
}

#[test]
fn ret_on_empty_stack_underflows() {
    let mut c = machine_with(vec![0x00, 0xEE]);
    assert_eq!(step(&mut c), Err(Chip8Error::StackUnderflow));
    // The failure mutated nothing.
    assert_eq!(c.program_counter(), 0x200);
    assert_eq!(c.stack_depth(), 0);
}

#[test]
fn unsupported_opcode_reports_raw_word_and_mutates_nothing() {
    // LD V6, 0x99 first, so a register is nonzero; then 0xF000.
    let mut c = machine_with(vec![0x66, 0x99, 0xF0, 0x00]);
    assert!(step(&mut c).is_ok());
    let regs_before: Vec<u8> = (0..16).map(|x| c.register(x)).collect();
    let screen_before = c.screen_buffer().to_vec();
    assert_eq!(step(&mut c), Err(Chip8Error::UnsupportedOpcode(0xF000)));
    let regs_after: Vec<u8> = (0..16).map(|x| c.register(x)).collect();
    assert_eq!(regs_after, regs_before);
    assert_eq!(c.screen_buffer().to_vec(), screen_before);
    assert_eq!(c.program_counter(), 0x202);
}

#[test]
fn unsupported_zero_group_opcode_fails() {
    let mut c = machine_with(vec![0x00, 0xE1]);
    assert_eq!(step(&mut c), Err(Chip8Error::UnsupportedOpcode(0x00E1)));
}

#[test]
fn cls_clears_screen_regardless_of_prior_state() {
    // Draw an 8x1 sprite of all-set bits at (0, 0), then CLS.
    // LD I, 0x208; LD V0, 0x00; DRW V0, V0, 1; CLS; data: 0xFF.
    let mut c = machine_with(vec![0xA2, 0x08, 0x60, 0x00, 0xD0, 0x01, 0x00, 0xE0, 0xFF]);
    assert!(step(&mut c).is_ok());
    assert!(step(&mut c).is_ok());
    assert!(step(&mut c).is_ok());
    assert!(c.screen_buffer().iter().any(|&p| p == 1));
    let pc_before = c.program_counter();
    assert!(step(&mut c).is_ok());
    assert!(c.screen_buffer().iter().all(|&p| p == 0));
    assert_eq!(c.program_counter(), pc_before + 2);
}

#[test]
fn draw_lights_cells_and_reports_no_collision_on_dark_screen() {
    // LD I, 0x206; LD V0, 0x00; DRW V0, V0, 1; data: 0b1010_0001.
    let mut c = machine_with(vec![0xA2, 0x06, 0x60, 0x00, 0xD0, 0x01, 0xA1]);
    assert!(step(&mut c).is_ok());
    assert!(step(&mut c).is_ok());
    assert!(step(&mut c).is_ok());
    let s = c.screen_buffer();
    assert_eq!(&s[0..8], &[1, 0, 1, 0, 0, 0, 0, 1]);
    assert!(s[8..].iter().all(|&p| p == 0));
    assert_eq!(c.register(0xF), 0);
}

#[test]
fn draw_twice_restores_screen_and_reports_collision() {
    // LD I, 0x208; LD V0, 0x05; DRW V0, V0, 2; DRW V0, V0, 2;
    // data: 0x3C, 0x42.
    let mut c = machine_with(vec![0xA2, 0x08, 0x60, 0x05, 0xD0, 0x02, 0xD0, 0x02, 0x3C, 0x42]);
    assert!(step(&mut c).is_ok());
    assert!(step(&mut c).is_ok());
    let before = c.screen_buffer().to_vec();
    assert!(step(&mut c).is_ok());
    assert_eq!(c.register(0xF), 0);
    assert!(c.screen_buffer().iter().any(|&p| p == 1));
    assert!(step(&mut c).is_ok());
    // XOR is a self-inverse: the second identical draw restores the
    // screen, and erasing the first draw's lit cells is a collision.
    assert_eq!(c.screen_buffer().to_vec(), before);
    assert_eq!(c.register(0xF), 1);
}

#[test]
fn draw_three_times_alternates_collision() {
    // LD I, 0x208; three DRW V0, V0, 1; data: 0x80. The first draw lights
    // a dark cell (no collision); the second erases it (collision); the
    // third lights it again (no collision: every set bit of the second
    // draw had landed on a lit cell, so the screen was dark again).
    let mut c = machine_with(vec![0xA2, 0x08, 0xD0, 0x01, 0xD0, 0x01, 0xD0, 0x01, 0x80]);
    assert!(step(&mut c).is_ok());
    assert!(step(&mut c).is_ok());
    assert_eq!(c.register(0xF), 0);
    assert_eq!(c.screen_buffer()[0], 1);
    assert!(step(&mut c).is_ok());
    assert_eq!(c.register(0xF), 1);
    assert_eq!(c.screen_buffer()[0], 0);
    assert!(step(&mut c).is_ok());
    assert_eq!(c.register(0xF), 0);
    assert_eq!(c.screen_buffer()[0], 1);
}

#[test]
fn draw_wraps_around_both_edges() {
    // LD I, 0x208; LD V0, 62; LD V1, 31; DRW V0, V1, 2; data: 0xC0, 0x80.
    let mut c = machine_with(vec![
        0xA2, 0x08, 0x60, 0x3E, 0x61, 0x1F, 0xD0, 0x12, 0xC0, 0x80,
    ]);
    assert!(step(&mut c).is_ok());
    assert!(step(&mut c).is_ok());
    assert!(step(&mut c).is_ok());
    assert!(step(&mut c).is_ok());
    let s = c.screen_buffer();
    // Row 31 gets 0b11 at columns 62, 63; row 0 (wrapped from 32) gets
    // one bit at column 62.
    assert_eq!(s[31 * 64 + 62], 1);
    assert_eq!(s[31 * 64 + 63], 1);
    assert_eq!(s[0 * 64 + 62], 1);
    assert_eq!(s[0 * 64 + 63], 0);
    assert_eq!(s.iter().map(|&p| p as u32).sum::<u32>(), 3);
}

#[test]
fn pc_stays_even_and_in_window_over_a_loop() {
    // LD V0, 1; ADD V0, 1; JP 0x202: a tight loop.
    let mut c = machine_with(vec![0x60, 0x01, 0x70, 0x01, 0x12, 0x02]);
    for _ in 0..100 {
        assert!(step(&mut c).is_ok());
        let pc = c.program_counter();
        assert_eq!(pc % 2, 0);
        assert!((0x200..0x1000).contains(&pc));
    }
}

#[test]
fn can_step_is_false_at_the_memory_edge() {
    // JP 0xFFF parks the counter where no two-byte fetch fits.
    let mut c = machine_with(vec![0x1F, 0xFF]);
    assert!(step(&mut c).is_ok());
    assert_eq!(c.program_counter(), 0xFFF);
    assert!(!c.can_step());
}

#[test]
fn can_step_is_false_when_sprite_rows_leave_memory() {
    // LD I, 0xFFF then DRW V0, V0, 2 would read past the last byte.
    let mut c = machine_with(vec![0xAF, 0xFF, 0xD0, 0x02]);
    assert!(step(&mut c).is_ok());
    assert!(!c.can_step());
}

#[test]
fn draw_reads_rows_at_address_register() {
    // A one-row draw whose sprite byte lives where I points: LD I, 0x200
    // makes the sprite the LD instruction's own first byte (0xA2).
    let mut c = machine_with(vec![0xA2, 0x00, 0xD0, 0x01]);
    assert!(step(&mut c).is_ok());
    assert!(step(&mut c).is_ok());
    let s = c.screen_buffer();
    // 0xA2 = 0b1010_0010.
    assert_eq!(&s[0..8], &[1, 0, 1, 0, 0, 0, 1, 0]);
}
