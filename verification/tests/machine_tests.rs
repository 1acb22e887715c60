use chip8::cpu::{font_table, init_test_cpu, Fault, CPU};
use chip8::keypad::KeyStroke;

// Arithmetic flag behavior over the full 8-bit range edges.

#[test]
fn add_carry_edges() {
    let mut cpu = CPU::init_cpu();
    cpu.regs[1] = 255;
    cpu.regs[2] = 255;
    cpu.add_reg_reg(1, 2);
    assert_eq!(cpu.regs[1], 254);
    assert_eq!(cpu.regs[0xF], 1);

    cpu.regs[1] = 0;
    cpu.regs[2] = 0;
    cpu.add_reg_reg(1, 2);
    assert_eq!(cpu.regs[1], 0);
    assert_eq!(cpu.regs[0xF], 0);

    cpu.regs[1] = 255;
    cpu.regs[2] = 1;
    cpu.add_reg_reg(1, 2);
    assert_eq!(cpu.regs[1], 0);
    assert_eq!(cpu.regs[0xF], 1);
}

#[test]
fn sub_borrow_edges() {
    let mut cpu = CPU::init_cpu();
    // equal operands: x > y does not hold, flag is 0
    cpu.regs[1] = 7;
    cpu.regs[2] = 7;
    cpu.regs[0xF] = 1;
    cpu.sub_reg_reg(1, 2);
    assert_eq!(cpu.regs[1], 0);
    assert_eq!(cpu.regs[0xF], 0);

    cpu.regs[1] = 255;
    cpu.regs[2] = 0;
    cpu.sub_reg_reg(1, 2);
    assert_eq!(cpu.regs[1], 255);
    assert_eq!(cpu.regs[0xF], 1);

    // reversed form: y > x sets the flag
    cpu.regs[1] = 3;
    cpu.regs[2] = 5;
    cpu.sub_not_borrow(1, 2);
    assert_eq!(cpu.regs[1], 254);
    assert_eq!(cpu.regs[0xF], 1);
}

#[test]
fn shift_edges() {
    let mut cpu = CPU::init_cpu();
    cpu.regs[4] = 0x00;
    cpu.shr(4);
    assert_eq!(cpu.regs[4], 0x00);
    assert_eq!(cpu.regs[0xF], 0);

    cpu.regs[4] = 0xFF;
    cpu.shr(4);
    assert_eq!(cpu.regs[4], 0x7F);
    assert_eq!(cpu.regs[0xF], 1);

    cpu.regs[4] = 0x00;
    cpu.shl(4);
    assert_eq!(cpu.regs[4], 0x00);
    assert_eq!(cpu.regs[0xF], 0);

    cpu.regs[4] = 0xFF;
    cpu.shl(4);
    assert_eq!(cpu.regs[4], 0xFE);
    assert_eq!(cpu.regs[0xF], 1);
}

#[test]
fn bcd_digits_recombine() {
    let mut cpu = CPU::init_cpu();
    cpu.set_index_reg_to_addr(0x300);

    cpu.regs[3] = 123;
    cpu.bcd(3);
    assert_eq!(
        [cpu.ram[0x300], cpu.ram[0x301], cpu.ram[0x302]],
        [1, 2, 3]
    );

    cpu.regs[3] = 0;
    cpu.bcd(3);
    assert_eq!(
        [cpu.ram[0x300], cpu.ram[0x301], cpu.ram[0x302]],
        [0, 0, 0]
    );

    cpu.regs[3] = 255;
    cpu.bcd(3);
    assert_eq!(
        [cpu.ram[0x300], cpu.ram[0x301], cpu.ram[0x302]],
        [2, 5, 5]
    );
    assert_eq!(100 * cpu.ram[0x300] as u16 + 10 * cpu.ram[0x301] as u16 + cpu.ram[0x302] as u16, 255);
}

// Register-block store/load round trips, including both boundary widths.

#[test]
fn store_load_round_trip_single() {
    let mut cpu = CPU::init_cpu();
    cpu.set_index_reg_to_addr(0x300);
    cpu.regs[0] = 0xAB;
    cpu.regs[1] = 0xCD;

    cpu.ld_reg_to_ram(0);
    // exactly one byte moves
    assert_eq!(cpu.ram[0x300], 0xAB);
    assert_eq!(cpu.ram[0x301], 0);

    cpu.ld_ram_to_reg(0);
    assert_eq!(cpu.regs[0], 0xAB);
    assert_eq!(cpu.regs[1], 0xCD);
}

#[test]
fn store_load_round_trip_full() {
    let mut cpu = CPU::init_cpu();
    cpu.set_index_reg_to_addr(0x340);
    for i in 0..16 {
        cpu.regs[i] = (3 * i + 7) as u8;
    }
    let saved = cpu.regs;

    cpu.ld_reg_to_ram(15);
    // all 16 bytes move, and nothing past them
    for i in 0..16 {
        assert_eq!(cpu.ram[0x340 + i], (3 * i + 7) as u8);
    }
    assert_eq!(cpu.ram[0x350], 0);

    cpu.ld_ram_to_reg(15);
    assert_eq!(cpu.regs, saved);
}

// Sprite drawing: XOR compositing, collision reporting, wraparound.

#[test]
fn draw_collision_round_trip() {
    let mut cpu = CPU::init_cpu();
    cpu.ram[0x250] = 0b1010_0001;
    cpu.ram[0x251] = 0b0111_1110;
    cpu.set_index_reg_to_addr(0x250);
    cpu.regs[0] = 10;
    cpu.regs[1] = 5;

    cpu.draw(0, 1, 2);
    // a draw onto a clear region reports no collision
    assert_eq!(cpu.regs[0xF], 0);
    assert_eq!(cpu.display[5][10], 1);
    assert_eq!(cpu.display[5][11], 0);
    assert_eq!(cpu.display[5][12], 1);
    assert_eq!(cpu.display[5][17], 1);
    assert_eq!(cpu.display[6][10], 0);
    assert_eq!(cpu.display[6][11], 1);

    cpu.draw(0, 1, 2);
    // the second identical draw collides and clears everything
    assert_eq!(cpu.regs[0xF], 1);
    for r in 0..32 {
        for c in 0..64 {
            assert_eq!(cpu.display[r][c], 0);
        }
    }
}

#[test]
fn draw_wraps_at_edges() {
    let mut cpu = CPU::init_cpu();
    cpu.ram[0x250] = 0b1000_0001;
    cpu.set_index_reg_to_addr(0x250);
    cpu.regs[0] = 62;
    cpu.regs[1] = 31;

    cpu.draw(0, 1, 1);
    assert_eq!(cpu.regs[0xF], 0);
    // leftmost sprite bit lands at column 62 of the last row
    assert_eq!(cpu.display[31][62], 1);
    // rightmost sprite bit wraps to column (62 + 7) % 64 == 5
    assert_eq!(cpu.display[31][5], 1);
    assert_eq!(cpu.display[31][63], 0);

    // a two-row sprite whose start row is wrapped draws on rows 31 and 0
    cpu.cls();
    cpu.ram[0x251] = 0b1000_0001;
    cpu.regs[1] = 63;
    cpu.draw(0, 1, 2);
    assert_eq!(cpu.display[31][62], 1);
    assert_eq!(cpu.display[0][62], 1);
}

#[test]
fn draw_zero_height_only_clears_flag() {
    let mut cpu = CPU::init_cpu();
    cpu.regs[0xF] = 1;
    cpu.draw(0, 1, 0);
    assert_eq!(cpu.regs[0xF], 0);
    for r in 0..32 {
        for c in 0..64 {
            assert_eq!(cpu.display[r][c], 0);
        }
    }
}

#[test]
fn draw_via_tick_uses_font_glyph() {
    let mut cpu = CPU::init_cpu();
    // program: point the index at glyph 0, then draw it 5 rows tall at (0, 0)
    let program: Vec<u8> = vec![0x60, 0x00, 0xF0, 0x29, 0xD0, 0x05];
    cpu.load_program(&program).unwrap();
    cpu.tick().unwrap();
    cpu.tick().unwrap();
    assert_eq!(cpu.index_reg, 0);
    cpu.tick().unwrap();
    // glyph 0 is 0xF0: its top row lights the four leftmost pixels
    assert_eq!(cpu.display[0][0], 1);
    assert_eq!(cpu.display[0][1], 1);
    assert_eq!(cpu.display[0][2], 1);
    assert_eq!(cpu.display[0][3], 1);
    assert_eq!(cpu.display[0][4], 0);
    assert_eq!(cpu.pc, 0x206);
}

// Key handling.

#[test]
fn key_wait_blocks_until_key() {
    let mut cpu = CPU::init_cpu();
    // program: wait for a key into register 5
    let program: Vec<u8> = vec![0xF5, 0x0A];
    cpu.load_program(&program).unwrap();

    // with no key held, the step makes no net progress, again and again
    for _ in 0..3 {
        let r = cpu.tick();
        assert_eq!(r, Ok(0xF50A));
        assert_eq!(cpu.pc, 0x200);
    }

    // hold keys 9 and 3: the lowest held index is stored
    let mut mask = [0u8; 16];
    mask[9] = 1;
    mask[3] = 1;
    cpu.set_key(&KeyStroke::Key(mask));
    let r = cpu.tick();
    assert_eq!(r, Ok(0xF50A));
    assert_eq!(cpu.pc, 0x202);
    assert_eq!(cpu.regs[5], 3);
}

#[test]
fn key_skip_instructions() {
    let mut cpu = CPU::init_cpu();
    let mut mask = [0u8; 16];
    mask[7] = 1;
    cpu.set_key(&KeyStroke::Key(mask));

    cpu.regs[2] = 7;
    cpu.skp(2);
    assert_eq!(cpu.pc, 0x202);
    cpu.sknp(2);
    assert_eq!(cpu.pc, 0x202);

    cpu.regs[2] = 8;
    cpu.skp(2);
    assert_eq!(cpu.pc, 0x202);
    cpu.sknp(2);
    assert_eq!(cpu.pc, 0x204);
}

#[test]
fn set_key_replaces_mask_wholesale() {
    let mut cpu = CPU::init_cpu();
    let mut mask = [0u8; 16];
    mask[0] = 1;
    mask[15] = 1;
    cpu.set_key(&KeyStroke::Key(mask));
    assert_eq!(cpu.key_pressed, mask);

    // quit and advance events leave the keys alone
    cpu.set_key(&KeyStroke::Quit);
    assert_eq!(cpu.key_pressed, mask);
    cpu.set_key(&KeyStroke::Next);
    assert_eq!(cpu.key_pressed, mask);

    cpu.set_key(&KeyStroke::Key([0u8; 16]));
    assert_eq!(cpu.key_pressed, [0u8; 16]);
}

// Call/return nesting and the stack policy.

#[test]
fn call_ret_sixteen_levels() {
    let mut cpu = CPU::init_cpu();
    let mut pcs: Vec<u16> = Vec::new();
    for d in 0..16 {
        pcs.push(cpu.pc);
        cpu.call_addr(0x300 + d);
        assert_eq!(cpu.pc, 0x300 + d);
    }
    assert_eq!(cpu.stack.len(), 16);
    for d in (0..16).rev() {
        cpu.ret();
        assert_eq!(cpu.pc, pcs[d]);
    }
    assert_eq!(cpu.stack.len(), 0);
    assert_eq!(cpu.pc, 0x200);
}

#[test]
fn seventeenth_call_is_rejected() {
    let mut cpu = CPU::init_cpu();
    // a program that calls its own address forever
    let program: Vec<u8> = vec![0x22, 0x00];
    cpu.load_program(&program).unwrap();
    for _ in 0..16 {
        assert_eq!(cpu.tick(), Ok(0x2200));
    }
    assert_eq!(cpu.stack.len(), 16);
    let pc_before = cpu.pc;
    assert_eq!(cpu.tick(), Err(Fault::StackOverflow));
    // the faulting step changed nothing
    assert_eq!(cpu.pc, pc_before);
    assert_eq!(cpu.stack.len(), 16);
}

#[test]
fn return_on_empty_stack_is_rejected() {
    let mut cpu = CPU::init_cpu();
    let program: Vec<u8> = vec![0x00, 0xEE];
    cpu.load_program(&program).unwrap();
    assert_eq!(cpu.tick(), Err(Fault::StackUnderflow));
    assert_eq!(cpu.pc, 0x200);
    assert_eq!(cpu.stack.len(), 0);
}

#[test]
fn call_ret_round_trip_via_tick() {
    let mut cpu = CPU::init_cpu();
    // 0x200: call 0x300; 0x300: return
    let mut program: Vec<u8> = vec![0x23, 0x00];
    while program.len() < 0x100 {
        program.push(0);
    }
    program.push(0x00);
    program.push(0xEE);
    cpu.load_program(&program).unwrap();

    assert_eq!(cpu.tick(), Ok(0x2300));
    assert_eq!(cpu.pc, 0x300);
    assert_eq!(cpu.tick(), Ok(0x00EE));
    // back at the instruction immediately after the call
    assert_eq!(cpu.pc, 0x202);
    assert_eq!(cpu.stack.len(), 0);
}

// Timers.

#[test]
fn timers_run_down_and_clamp() {
    let mut cpu = CPU::init_cpu();
    cpu.delay_timer = 5;
    cpu.sound_timer = 2;

    cpu.tick_timers();
    cpu.tick_timers();
    assert_eq!(cpu.delay_timer, 3);
    assert_eq!(cpu.sound_timer, 0);

    cpu.tick_timers();
    cpu.tick_timers();
    cpu.tick_timers();
    assert_eq!(cpu.delay_timer, 0);
    assert_eq!(cpu.sound_timer, 0);

    // further ticks stay at zero
    cpu.tick_timers();
    assert_eq!(cpu.delay_timer, 0);
    assert_eq!(cpu.sound_timer, 0);
}

#[test]
fn timer_instructions() {
    let mut cpu = CPU::init_cpu();
    cpu.regs[6] = 42;
    cpu.ld_reg_to_dt(6);
    assert_eq!(cpu.delay_timer, 42);
    cpu.regs[7] = 17;
    cpu.ld_st_to_reg(7);
    assert_eq!(cpu.sound_timer, 17);
}

// The random instruction: only bits of the mask survive.

#[test]
fn rnd_num_respects_mask() {
    let mut cpu = CPU::init_cpu();
    cpu.rnd_num(2, 0x00);
    assert_eq!(cpu.regs[2], 0);
    for _ in 0..64 {
        cpu.rnd_num(2, 0x0F);
        assert!(cpu.regs[2] < 16);
        cpu.rnd_num(2, 0xA5);
        assert_eq!(cpu.regs[2] & !0xA5, 0);
    }
}

#[test]
fn rnd_num_from_is_deterministic() {
    let mut cpu = CPU::init_cpu();
    cpu.rnd_num_from(2, 0x0F, 0xAB);
    assert_eq!(cpu.regs[2], 0x0B);
    cpu.rnd_num_from(2, 0xFF, 0xAB);
    assert_eq!(cpu.regs[2], 0xAB);
}

// Program loading.

#[test]
fn load_program_installs_image() {
    let mut cpu = CPU::init_cpu();
    let program: Vec<u8> = vec![0x12, 0x34, 0x56];
    assert_eq!(cpu.load_program(&program), Ok(()));
    assert_eq!(cpu.ram[0x200], 0x12);
    assert_eq!(cpu.ram[0x201], 0x34);
    assert_eq!(cpu.ram[0x202], 0x56);
    assert_eq!(cpu.ram[0x203], 0);
    // the reserved font region is untouched
    let font = font_table();
    for i in 0..80 {
        assert_eq!(cpu.ram[i], font[i]);
    }
}

#[test]
fn load_program_rejects_oversized_image() {
    let mut cpu = CPU::init_cpu();
    let before = cpu.ram;
    let program: Vec<u8> = vec![0xAA; 3585];
    assert_eq!(cpu.load_program(&program), Err(Fault::ProgramTooLarge));
    assert_eq!(cpu.ram.len(), 4096);
    for i in 0..4096 {
        assert_eq!(cpu.ram[i], before[i]);
    }

    // the largest image that fits is accepted
    let program: Vec<u8> = vec![0xAA; 3584];
    assert_eq!(cpu.load_program(&program), Ok(()));
    assert_eq!(cpu.ram[4095], 0xAA);
}

// Dispatch details.

#[test]
fn unrecognized_opcode_is_a_no_op() {
    let mut cpu = CPU::init_cpu();
    // family 8 with an unassigned low nibble
    let program: Vec<u8> = vec![0x81, 0x29];
    cpu.load_program(&program).unwrap();
    let regs_before = cpu.regs;
    assert_eq!(cpu.tick(), Ok(0x8129));
    assert_eq!(cpu.pc, 0x202);
    assert_eq!(cpu.regs, regs_before);
}

#[test]
fn skip_advances_by_four_net() {
    let mut cpu = CPU::init_cpu();
    // skip-if-equal-immediate on a register that matches
    let program: Vec<u8> = vec![0x30, 0x00];
    cpu.load_program(&program).unwrap();
    assert_eq!(cpu.tick(), Ok(0x3000));
    assert_eq!(cpu.pc, 0x204);
}

#[test]
fn font_glyph_addresses() {
    let mut cpu = CPU::init_cpu();
    let font = font_table();
    for g in 0..16u8 {
        cpu.regs[0] = g;
        cpu.ld_font(0);
        assert_eq!(cpu.index_reg, g as u16 * 5);
        // the glyph's five bytes sit at that address
        for k in 0..5 {
            assert_eq!(cpu.ram[cpu.index_reg as usize + k], font[g as usize * 5 + k]);
        }
    }
}
