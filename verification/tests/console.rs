use early_boot::console::{decode_input, Console};

#[test]
fn first_byte_is_preceded_by_the_switch_to_red() {
    let mut c = Console::new();
    assert_eq!(c.output_for(b'A'), vec![0x1B, b'[', b'3', b'1', b'm', b'A']);
}

#[test]
fn switch_to_red_is_sent_once() {
    let mut c = Console::new();
    c.output_for(b'A');
    assert_eq!(c.output_for(b'B'), vec![b'B']);
    assert_eq!(c.output_for(0x1B), vec![0x1B]);
    assert_eq!(c.output_for(0), vec![0]);
}

#[test]
fn consoles_keep_their_own_state() {
    let mut first = Console::new();
    first.output_for(b'x');
    let mut second = Console::new();
    assert_eq!(second.output_for(b'y').len(), 6);
    assert_eq!(first.output_for(b'z').len(), 1);
}

#[test]
fn all_bits_set_means_no_input() {
    assert_eq!(decode_input(usize::MAX), None);
}

#[test]
fn input_is_the_low_byte() {
    assert_eq!(decode_input(0), Some(0));
    assert_eq!(decode_input(b'q' as usize), Some(b'q'));
    assert_eq!(decode_input(0xff), Some(0xff));
    assert_eq!(decode_input(0x141), Some(0x41));
    assert_eq!(decode_input(usize::MAX - 1), Some(0xfe));
}
