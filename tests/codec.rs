use servo_link::codec::{
    decode_status, decode_status_with, encode_command, parse_angle_field, status_layout,
    DecodeError, FrameLayout, ServoCommand,
};

fn cmd(angles: Vec<u8>, outputs: Vec<bool>) -> ServoCommand {
    ServoCommand { angles, digital_outputs: outputs }
}

#[test]
fn encode_neutral_command() {
    let c = cmd(vec![90, 90, 90, 90, 90, 90], vec![false, false, false]);
    assert_eq!(encode_command(&c), b"S90,90,90,90,90,90,0,0,0E\n".to_vec());
}

#[test]
fn encode_mixed_widths_and_flags() {
    let c = cmd(vec![0, 7, 10, 99, 100, 255], vec![true, false, true]);
    assert_eq!(encode_command(&c), b"S0,7,10,99,100,255,1,0,1E\n".to_vec());
}

#[test]
fn encode_single_servo_pair() {
    let c = cmd(vec![3, 180], vec![true]);
    assert_eq!(encode_command(&c), b"S3,180,1E\n".to_vec());
}

#[test]
fn encode_empty_command() {
    let c = cmd(vec![], vec![]);
    assert_eq!(encode_command(&c), b"SE\n".to_vec());
}

#[test]
fn round_trip_matching_width() {
    let angles = vec![0u8, 45, 90, 135, 180, 255];
    let outputs = vec![true, false, true];
    let frame = encode_command(&cmd(angles.clone(), outputs.clone()));
    let layout = FrameLayout { servos: 6, outputs: 3, inputs: 0 };
    let rec = decode_status_with(&frame, layout).unwrap();
    assert_eq!(rec.servo_angles, angles);
    assert_eq!(rec.digital_outputs, outputs);
    assert!(rec.digital_inputs.is_empty());
}

#[test]
fn decode_skips_noise_around_frame() {
    let chunk = b"garbage\nS90,90,90,90,90,90,0,0,0E\nmore-garbage";
    let layout = FrameLayout { servos: 6, outputs: 3, inputs: 0 };
    let rec = decode_status_with(chunk, layout).unwrap();
    assert_eq!(rec.servo_angles, vec![90, 90, 90, 90, 90, 90]);
    assert_eq!(rec.digital_outputs, vec![false, false, false]);
    assert!(rec.digital_inputs.is_empty());
    // nine fields fall short of the twelve a full status frame needs
    assert!(matches!(decode_status(chunk), Err(DecodeError::MalformedFrame)));
}

#[test]
fn decode_skips_noise_around_full_status_frame() {
    let rec = decode_status(b"boot v1\r\nS90,90,90,90,90,90,0,0,0,1,1,0E\nmore-garbage").unwrap();
    assert_eq!(rec.servo_angles, vec![90, 90, 90, 90, 90, 90]);
    assert_eq!(rec.digital_outputs, vec![false, false, false]);
    assert_eq!(rec.digital_inputs, vec![true, true, false]);
}

#[test]
fn decode_flag_two_is_false() {
    let rec = decode_status(b"S1,2,3,4,5,6,2,1,2,1,2,1E\n").unwrap();
    assert_eq!(rec.digital_outputs, vec![false, true, false]);
    assert_eq!(rec.digital_inputs, vec![true, false, true]);
}

#[test]
fn decode_under_length_is_malformed() {
    assert!(matches!(decode_status(b"SA,BE"), Err(DecodeError::MalformedFrame)));
    assert!(matches!(decode_status(b"S1,2,3,4,5,6,0,0,0,1,1E\n"), Err(DecodeError::MalformedFrame)));
}

#[test]
fn decode_without_frame() {
    assert!(matches!(decode_status(b""), Err(DecodeError::NoValidFrame)));
    assert!(matches!(decode_status(b"hello\nworld\n"), Err(DecodeError::NoValidFrame)));
    assert!(matches!(decode_status(b"S\nE\n"), Err(DecodeError::NoValidFrame)));
    assert!(matches!(decode_status(b"S1,2,3E\r"), Err(DecodeError::NoValidFrame)));
    assert!(matches!(decode_status(b"S1,2,3E\r\n"), Err(DecodeError::MalformedFrame)));
}

#[test]
fn decode_takes_first_frame_and_strips_crlf() {
    let rec = decode_status(b"S1,2,3,4,5,6,1,1,1,0,0,0E\r\nS9,9,9,9,9,9,0,0,0,1,1,1E\n").unwrap();
    assert_eq!(rec.servo_angles, vec![1, 2, 3, 4, 5, 6]);
    assert_eq!(rec.digital_outputs, vec![true, true, true]);
    assert_eq!(rec.digital_inputs, vec![false, false, false]);
}

#[test]
fn decode_drops_unparsable_angles() {
    let rec = decode_status(b"S10,x,256,+40,,60,1,0,1,1,0,1E\n").unwrap();
    assert_eq!(rec.servo_angles, vec![10, 40, 60]);
    assert_eq!(rec.digital_outputs, vec![true, false, true]);
}

#[test]
fn decode_ignores_extra_fields() {
    let rec = decode_status(b"S1,2,3,4,5,6,1,0,0,0,0,1,77,88E\n").unwrap();
    assert_eq!(rec.servo_angles, vec![1, 2, 3, 4, 5, 6]);
    assert_eq!(rec.digital_inputs, vec![false, false, true]);
}

#[test]
fn parse_angle_field_cases() {
    assert_eq!(parse_angle_field(b"0"), Some(0));
    assert_eq!(parse_angle_field(b"255"), Some(255));
    assert_eq!(parse_angle_field(b"007"), Some(7));
    assert_eq!(parse_angle_field(b"+12"), Some(12));
    assert_eq!(parse_angle_field(b"256"), None);
    assert_eq!(parse_angle_field(b"1000"), None);
    assert_eq!(parse_angle_field(b""), None);
    assert_eq!(parse_angle_field(b"+"), None);
    assert_eq!(parse_angle_field(b"-1"), None);
    assert_eq!(parse_angle_field(b"9a"), None);
}

#[test]
fn status_layout_is_six_three_three() {
    let l = status_layout();
    assert_eq!(l, FrameLayout { servos: 6, outputs: 3, inputs: 3 });
}
