use super8::instruction::{control_code, execute_with, instruction_ok};
use super8::machine::new_memory;

fn mem() -> Vec<u8> {
    vec![0u8; 4096]
}

fn index_of(m: &[u8]) -> usize {
    ((m[96] as usize) << 8) + m[97] as usize
}

#[test]
fn clear_screen_zeroes_display_only() {
    let mut m = mem();
    for k in 0xE90..0xF90 {
        m[k] = 0xAB;
    }
    m[5] = 7;
    m[0xF90] = 9;
    assert_eq!(execute_with(0x00E0, &mut m, 0), Ok((0, 0)));
    assert!(m[0xE90..0xF90].iter().all(|b| *b == 0));
    assert_eq!(m[5], 7);
    assert_eq!(m[0xF90], 9);
}

#[test]
fn return_jump_call_codes() {
    let mut m = mem();
    assert_eq!(execute_with(0x00EE, &mut m, 0), Ok((4, 0)));
    assert_eq!(execute_with(0x0123, &mut m, 0), Ok((0, 0)));
    assert_eq!(execute_with(0x1ABC, &mut m, 0), Ok((1, 0xABC)));
    assert_eq!(execute_with(0x2345, &mut m, 0), Ok((5, 0x345)));
    assert_eq!(m, mem());
}

#[test]
fn skips_on_register_and_byte() {
    let mut m = mem();
    m[3] = 0x42;
    m[4] = 0x42;
    assert_eq!(execute_with(0x3342, &mut m, 0), Ok((2, 0)));
    assert_eq!(execute_with(0x3341, &mut m, 0), Ok((0, 0)));
    assert_eq!(execute_with(0x4341, &mut m, 0), Ok((2, 0)));
    assert_eq!(execute_with(0x4342, &mut m, 0), Ok((0, 0)));
    assert_eq!(execute_with(0x5340, &mut m, 0), Ok((2, 0)));
    assert_eq!(execute_with(0x5350, &mut m, 0), Ok((0, 0)));
    // 9XY0 skips when the registers are equal, as 5XY0 does
    assert_eq!(execute_with(0x9340, &mut m, 0), Ok((2, 0)));
    assert_eq!(execute_with(0x9350, &mut m, 0), Ok((0, 0)));
}

#[test]
fn load_and_add_immediate() {
    let mut m = mem();
    assert_eq!(execute_with(0x6AF0, &mut m, 0), Ok((0, 0)));
    assert_eq!(m[0xA], 0xF0);
    m[15] = 5;
    assert_eq!(execute_with(0x7A20, &mut m, 0), Ok((0, 0)));
    assert_eq!(m[0xA], 0x10);
    // 7XNN leaves VF alone
    assert_eq!(m[15], 5);
}

#[test]
fn alu_logic() {
    let mut m = mem();
    m[1] = 0b1100;
    m[2] = 0b1010;
    execute_with(0x8121, &mut m, 0).unwrap();
    assert_eq!(m[1], 0b1110);
    m[1] = 0b1100;
    execute_with(0x8122, &mut m, 0).unwrap();
    assert_eq!(m[1], 0b1000);
    m[1] = 0b1100;
    execute_with(0x8123, &mut m, 0).unwrap();
    assert_eq!(m[1], 0b0110);
    execute_with(0x8120, &mut m, 0).unwrap();
    assert_eq!(m[1], 0b1010);
}

#[test]
fn alu_add_sets_inverted_carry() {
    let mut m = mem();
    m[1] = 200;
    m[2] = 100;
    execute_with(0x8124, &mut m, 0).unwrap();
    assert_eq!(m[1], 44);
    assert_eq!(m[15], 0);
    m[1] = 20;
    execute_with(0x8124, &mut m, 0).unwrap();
    assert_eq!(m[1], 120);
    assert_eq!(m[15], 1);
}

#[test]
fn alu_sub_and_reverse_sub() {
    let mut m = mem();
    m[1] = 10;
    m[2] = 3;
    execute_with(0x8125, &mut m, 0).unwrap();
    assert_eq!((m[1], m[15]), (7, 1));
    m[1] = 3;
    m[2] = 10;
    execute_with(0x8125, &mut m, 0).unwrap();
    assert_eq!((m[1], m[15]), (249, 0));
    m[1] = 3;
    m[2] = 10;
    execute_with(0x8127, &mut m, 0).unwrap();
    assert_eq!((m[1], m[15]), (7, 1));
    m[1] = 10;
    m[2] = 3;
    execute_with(0x8127, &mut m, 0).unwrap();
    assert_eq!((m[1], m[15]), (249, 0));
}

#[test]
fn alu_shifts_use_vy() {
    let mut m = mem();
    m[2] = 0b1000_0011;
    execute_with(0x8126, &mut m, 0).unwrap();
    assert_eq!((m[1], m[15]), (0b0100_0001, 1));
    execute_with(0x812E, &mut m, 0).unwrap();
    assert_eq!((m[1], m[15]), (0b0000_0110, 0x80));
}

#[test]
fn alu_flag_written_before_result_when_x_is_vf() {
    let mut m = mem();
    m[15] = 10;
    m[2] = 3;
    // VF is set to 1 (10 >= 3) first, then VF = VF - V2 = 1 - 3
    execute_with(0x8F25, &mut m, 0).unwrap();
    assert_eq!(m[15], 254);
}

#[test]
fn unknown_alu_operation_is_an_error() {
    let mut m = mem();
    m[1] = 9;
    assert_eq!(execute_with(0x8128, &mut m, 0), Err("Whoops!"));
    assert_eq!(m[1], 9);
    assert_eq!(m, {
        let mut e = mem();
        e[1] = 9;
        e
    });
}

#[test]
fn set_index_and_jump_with_offset() {
    let mut m = mem();
    execute_with(0xA2F3, &mut m, 0).unwrap();
    assert_eq!((m[96], m[97]), (0x02, 0xF3));
    // BNNN masks the command with 0x0FFF + V0
    m[0] = 1;
    assert_eq!(execute_with(0xB123, &mut m, 0), Ok((1, 0xB123 & 0x1000)));
    m[0] = 0;
    assert_eq!(execute_with(0xB123, &mut m, 0), Ok((1, 0x0123)));
}

#[test]
fn random_is_masked() {
    let mut m = mem();
    execute_with(0xC30F, &mut m, 0xAB).unwrap();
    assert_eq!(m[3], 0x0B);
    execute_with(0xC300, &mut m, 0xFF).unwrap();
    assert_eq!(m[3], 0);
}

#[test]
fn draw_sets_pixels_and_reports_collision() {
    let mut m = new_memory();
    // I points at the glyph of 0 (16..21)
    m[96] = 0;
    m[97] = 16;
    m[1] = 0;
    m[2] = 0;
    execute_with(0xD125, &mut m, 0).unwrap();
    assert_eq!(m[15], 0);
    // the glyph rows land on the first byte of rows 0..5
    for r in 0..5 {
        assert_eq!(m[0xE90 + r * 8], m[16 + r]);
    }
    execute_with(0xD125, &mut m, 0).unwrap();
    assert_eq!(m[15], 1);
    assert!(m[0xE90..0xF90].iter().all(|b| *b == 0));
}

#[test]
fn draw_wraps_around_edges() {
    let mut m = mem();
    m[200] = 0xFF;
    m[96] = 0;
    m[97] = 200;
    m[1] = 60;
    m[2] = 31;
    execute_with(0xD121, &mut m, 0).unwrap();
    // row 31: columns 60..63 are the low nibble of byte 7, columns 0..3 the high nibble of byte 0
    assert_eq!(m[0xE90 + 31 * 8 + 7], 0x0F);
    assert_eq!(m[0xE90 + 31 * 8], 0xF0);
    assert_eq!(m[15], 0);
}

#[test]
fn draw_with_unaligned_column() {
    let mut m = mem();
    m[300] = 0b1000_0001;
    m[96] = 1;
    m[97] = 44;
    m[1] = 3;
    m[2] = 2;
    execute_with(0xD121, &mut m, 0).unwrap();
    assert_eq!(m[0xE90 + 16], 0b0001_0000);
    assert_eq!(m[0xE90 + 17], 0b0010_0000);
}

#[test]
fn key_skips() {
    let mut m = mem();
    m[100] = 7;
    m[4] = 7;
    assert_eq!(execute_with(0xE49E, &mut m, 0), Ok((2, 0)));
    assert_eq!(execute_with(0xE4A1, &mut m, 0), Ok((0, 0)));
    m[4] = 8;
    assert_eq!(execute_with(0xE49E, &mut m, 0), Ok((0, 0)));
    assert_eq!(execute_with(0xE4A1, &mut m, 0), Ok((2, 0)));
}

#[test]
fn timers_and_key_transfers() {
    let mut m = mem();
    m[98] = 33;
    execute_with(0xF507, &mut m, 0).unwrap();
    assert_eq!(m[5], 33);
    m[100] = 0xC;
    execute_with(0xF60A, &mut m, 0).unwrap();
    assert_eq!(m[6], 0xC);
    m[7] = 60;
    execute_with(0xF715, &mut m, 0).unwrap();
    assert_eq!(m[98], 60);
    execute_with(0xF718, &mut m, 0).unwrap();
    assert_eq!(m[99], 60);
}

#[test]
fn add_to_index_and_font_location() {
    let mut m = mem();
    m[96] = 0x01;
    m[97] = 0xF0;
    m[2] = 0x20;
    execute_with(0xF21E, &mut m, 0).unwrap();
    assert_eq!(index_of(&m), 0x210);
    m[2] = 0xA;
    execute_with(0xF229, &mut m, 0).unwrap();
    assert_eq!(index_of(&m), 16 + 50);
}

#[test]
fn decimal_digits() {
    let mut m = mem();
    m[96] = 0x03;
    m[97] = 0x00;
    m[9] = 254;
    execute_with(0xF933, &mut m, 0).unwrap();
    assert_eq!(&m[0x300..0x303], &[2, 5, 4]);
}

#[test]
fn store_and_load_registers() {
    let mut m = mem();
    for r in 0..4 {
        m[r] = (r as u8 + 1) * 11;
    }
    m[96] = 0x04;
    m[97] = 0x00;
    execute_with(0xF355, &mut m, 0).unwrap();
    assert_eq!(&m[0x400..0x404], &[11, 22, 33, 44]);
    assert_eq!(index_of(&m), 0x404);
    for r in 0..4 {
        m[r] = 0;
    }
    m[97] = 0x00;
    execute_with(0xF265, &mut m, 0).unwrap();
    assert_eq!(&m[0..4], &[11, 22, 33, 0]);
    assert_eq!(index_of(&m), 0x403);
}

#[test]
fn faults_are_detected() {
    let m = mem();
    assert!(!instruction_ok(0xE4FF, &m));
    assert!(!instruction_ok(0xF4FF, &m));
    assert!(instruction_ok(0xE49E, &m));
    let short = vec![0u8; 50];
    assert!(!instruction_ok(0x00E0, &short));
    assert!(!instruction_ok(0xA123, &short));
    assert!(instruction_ok(0x6123, &short));
    let mut big = mem();
    big[3] = 100;
    // 100 * 5 + 16 overflows a byte
    assert!(!instruction_ok(0xF329, &big));
    big[96] = 0xFF;
    big[97] = 0xFF;
    big[3] = 1;
    assert!(!instruction_ok(0xF31E, &big));
    // an unknown 8XYN is no fault: it is reported as an error
    assert!(instruction_ok(0x8129, &big));
    assert_eq!(control_code(0x8129, &big), None);
    assert_eq!(control_code(0x8124, &big), Some((0, 0)));
}
