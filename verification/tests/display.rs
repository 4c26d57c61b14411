use super8::display::{DisplayState, HostKey};

fn frame_with(byte: usize, value: u8) -> Vec<u8> {
    let mut f = vec![0u8; 256];
    f[byte] = value;
    f
}

#[test]
fn new_display_is_dark() {
    let d = DisplayState::new(64, 32);
    assert_eq!(d.buffer().len(), 64 * 32);
    assert!(d.buffer().iter().all(|p| *p == 0));
    assert_eq!((d.width(), d.height()), (64, 32));
}

#[test]
fn update_buffer_at_unit_scale() {
    let mut d = DisplayState::new(64, 32);
    d.update_buffer(&frame_with(9, 0b0100_0000));
    // byte 9 is row 1, columns 8..16: column 9 is lit
    for (k, p) in d.buffer().iter().enumerate() {
        let expected = if k == 64 + 9 { 0xFF32FF } else { 0 };
        assert_eq!(*p, expected, "pixel {}", k);
    }
}

#[test]
fn update_buffer_scales_blocks() {
    let mut d = DisplayState::new(128, 96);
    d.update_buffer(&frame_with(0, 0b1000_0000));
    let b = d.buffer();
    for row in 0..96 {
        for col in 0..128 {
            let lit = row < 3 && col < 2;
            assert_eq!(b[row * 128 + col], if lit { 0xFF32FF } else { 0 });
        }
    }
}

#[test]
fn render_redraws_only_changed_frames() {
    let mut d = DisplayState::new(64, 32);
    let f = frame_with(0, 1);
    assert!(d.render_ok(&f));
    d.render(&f);
    assert_eq!(d.buffer()[7], 0xFF32FF);
    d.render(&f);
    assert_eq!(d.buffer()[7], 0xFF32FF);
    d.render(&vec![0u8; 256]);
    assert_eq!(d.buffer()[7], 0);
}

#[test]
fn render_refuses_bad_sizes() {
    let d = DisplayState::new(100, 32);
    // an unchanged frame needs no redraw, so the size does not matter
    assert!(d.render_ok(&vec![0u8; 256]));
    assert!(!d.render_ok(&frame_with(0, 1)));
    assert!(!d.render_ok(&vec![0u8; 255]));
}

#[test]
fn keys_map_to_keypad() {
    let mut d = DisplayState::new(64, 32);
    assert_eq!(d.get_input(&[]), 17);
    assert_eq!(d.get_input(&[HostKey::Other]), 17);
    assert_eq!(d.get_input(&[HostKey::Key4]), 0xC);
    assert_eq!(d.get_input(&[HostKey::X]), 0);
    assert_eq!(d.get_input(&[HostKey::V]), 0xF);
    assert_eq!(d.get_input(&[HostKey::R, HostKey::Other]), 0xD);
    // the last key with a code wins
    assert_eq!(d.get_input(&[HostKey::Q, HostKey::F]), 0xE);
}
