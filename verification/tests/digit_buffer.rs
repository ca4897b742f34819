use draco_utilities::number::digit_buffer::{DigitBuffer, DEFAULT_BUFFER_SIZE};

fn text(buffer: DigitBuffer) -> Vec<u8> {
    let mut out = Vec::new();
    buffer.finish(&mut out);
    out
}

#[test]
fn an_empty_buffer_has_no_text() {
    assert_eq!(text(DigitBuffer::new()), b"");
    assert_eq!(DEFAULT_BUFFER_SIZE, 2200);
}

#[test]
fn fraction_digits_come_out_in_the_order_written() {
    let mut buffer = DigitBuffer::new();
    for digit in b"141592" {
        buffer.push_fraction_digit(*digit);
    }
    assert!(buffer.has_fraction());
    assert_eq!(buffer.last_fraction_digit(), b'2');
    assert_eq!(text(buffer), b"141592");
}

#[test]
fn bytes_before_come_out_in_reverse() {
    let mut buffer = DigitBuffer::new();
    for digit in b"25" {
        buffer.push_fraction_digit(*digit);
    }
    buffer.push_front(b'.');
    buffer.push_front(b'7');
    buffer.push_front(b'1');
    buffer.push_front(b'-');
    assert_eq!(text(buffer), b"-17.25");
}

#[test]
fn digits_are_taken_away_at_the_end() {
    let mut buffer = DigitBuffer::new();
    for digit in b"1299" {
        buffer.push_fraction_digit(*digit);
    }
    buffer.discard_fraction_digit();
    buffer.discard_fraction_digit();
    assert_eq!(buffer.last_fraction_digit(), b'2');
    buffer.replace_last_fraction_digit(b'3');
    buffer.push_front(b'.');
    buffer.push_front(b'0');
    assert_eq!(text(buffer), b"0.13");
}

#[test]
fn all_digits_taken_away() {
    let mut buffer = DigitBuffer::new();
    buffer.push_fraction_digit(b'9');
    buffer.push_fraction_digit(b'9');
    buffer.discard_fraction_digit();
    buffer.discard_fraction_digit();
    assert!(!buffer.has_fraction());
    buffer.push_front(b'1');
    assert_eq!(text(buffer), b"1");
}

#[test]
fn the_text_is_appended() {
    let mut buffer = DigitBuffer::new();
    buffer.push_fraction_digit(b'5');
    buffer.push_front(b'.');
    let mut out = b"x=".to_vec();
    buffer.finish(&mut out);
    assert_eq!(out, b"x=.5");
}

#[test]
fn a_full_buffer() {
    let mut buffer = DigitBuffer::new();
    for index in 0..DEFAULT_BUFFER_SIZE {
        buffer.push_fraction_digit(b'0' + (index % 10) as u8);
    }
    let out = text(buffer);
    assert_eq!(out.len(), DEFAULT_BUFFER_SIZE);
    assert_eq!(&out[..12], b"012345678901");
}
