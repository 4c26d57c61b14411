use super8::machine::{latch_key, new_memory, tick_timers};

#[test]
fn new_memory_holds_font() {
    let m = new_memory();
    assert_eq!(m.len(), 4096);
    assert_eq!(&m[16..21], &[0xF0, 0x90, 0x90, 0x90, 0xF0]);
    assert_eq!(&m[91..96], &[0xF0, 0x80, 0xF0, 0x80, 0x80]);
    assert!(m[..16].iter().all(|b| *b == 0));
    assert!(m[96..].iter().all(|b| *b == 0));
}

#[test]
fn key_is_latched() {
    let mut m = new_memory();
    latch_key(&mut m, 0xB);
    assert_eq!(m[100], 0xB);
}

#[test]
fn timers_count_down_to_zero() {
    let mut m = new_memory();
    m[98] = 2;
    m[99] = 1;
    assert!(tick_timers(&mut m));
    assert_eq!((m[98], m[99]), (1, 0));
    assert!(!tick_timers(&mut m));
    assert_eq!((m[98], m[99]), (0, 0));
    assert!(!tick_timers(&mut m));
    assert_eq!((m[98], m[99]), (0, 0));
}
