use super8::instruction::execute_with;
use super8::machine::new_memory;

#[test]
fn drawing_twice_restores_memory_but_vf() {
    let mut m = new_memory();
    for k in 0xE90..0xF90 {
        m[k] = (k * 37 % 251) as u8;
    }
    m[96] = 0;
    m[97] = 0x2A; // the glyph of 8
    m[1] = 62;
    m[2] = 29;
    let before = m.clone();
    execute_with(0xD125, &mut m, 0).unwrap();
    assert_ne!(m, before);
    execute_with(0xD125, &mut m, 0x55).unwrap();
    for k in 0..m.len() {
        if k != 15 {
            assert_eq!(m[k], before[k], "byte {}", k);
        }
    }
}

#[test]
fn storing_then_loading_gives_back_the_memory() {
    let mut m = new_memory();
    for r in 0..6 {
        m[r] = 3 * r as u8 + 1;
    }
    m[96] = 0x05;
    m[97] = 0x10;
    execute_with(0xF555, &mut m, 0).unwrap();
    let stored = m.clone();
    // point I back at the block
    m[96] = 0x05;
    m[97] = 0x10;
    execute_with(0xF565, &mut m, 0).unwrap();
    assert_eq!(m, stored);
    assert_eq!(&m[0..6], &[1, 4, 7, 10, 13, 16]);
}

#[test]
fn random_byte_only_reaches_masked_bits() {
    let mut a = new_memory();
    let mut b = new_memory();
    execute_with(0xC7A5, &mut a, 0x3C).unwrap();
    execute_with(0xC7A5, &mut b, 0xC3).unwrap();
    assert_eq!(a[7], 0x3C & 0xA5);
    assert_eq!(b[7], 0xC3 & 0xA5);
    a[7] = 0;
    b[7] = 0;
    assert_eq!(a, b);
}

#[test]
fn decimal_digits_rebuild_the_value() {
    for v in [0u8, 9, 10, 99, 100, 255] {
        let mut m = new_memory();
        m[96] = 0x06;
        m[97] = 0x00;
        m[4] = v;
        execute_with(0xF433, &mut m, 0).unwrap();
        let (h, t, o) = (m[0x600], m[0x601], m[0x602]);
        assert!(h < 10 && t < 10 && o < 10);
        assert_eq!(h as u32 * 100 + t as u32 * 10 + o as u32, v as u32);
    }
}
