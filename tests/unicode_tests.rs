use retained_ui::unicode::{
    utf16_encode, utf16_len, utf8_acc_cont_byte, utf8_first_byte, utf8_len, utf8_next_code_point,
    utf8_to_utf16,
};

#[test]
fn first_byte_keeps_low_bits() {
    assert_eq!(utf8_first_byte(0xC3, 2), 0x03);
    assert_eq!(utf8_first_byte(0xE2, 3), 0x02);
    assert_eq!(utf8_first_byte(0xF0, 4), 0x00);
}

#[test]
fn continuation_byte_appends_six_bits() {
    assert_eq!(utf8_acc_cont_byte(0x03, 0xA9), 0xE9);
}

#[test]
fn next_code_point_decodes_each_width() {
    let s = "aé€😀".as_bytes();
    assert_eq!(utf8_next_code_point(s, 0), Some((0x61, 1)));
    assert_eq!(utf8_next_code_point(s, 1), Some((0xE9, 3)));
    assert_eq!(utf8_next_code_point(s, 3), Some((0x20AC, 6)));
    assert_eq!(utf8_next_code_point(s, 6), Some((0x1F600, 10)));
    assert_eq!(utf8_next_code_point(s, 10), None);
}

#[test]
fn lengths_by_code_point() {
    assert_eq!(utf8_len(0x7F), 1);
    assert_eq!(utf8_len(0x80), 2);
    assert_eq!(utf8_len(0x800), 3);
    assert_eq!(utf8_len(0x10000), 4);
    assert_eq!(utf16_len(0xFFFF), 1);
    assert_eq!(utf16_len(0x10000), 2);
}

#[test]
fn encode_surrogate_pair() {
    let mut buf = [7u16; 3];
    assert!(utf16_encode(0x1F600, &mut buf));
    assert_eq!(buf, [0xD83D, 0xDE00, 7]);
    let mut buf = [7u16; 2];
    assert!(!utf16_encode(0x20AC, &mut buf));
    assert_eq!(buf, [0x20AC, 7]);
}

#[test]
fn transcode_matches_std_and_maps_round_trip() {
    let text = "aé€😀b";
    let t = utf8_to_utf16(text.as_bytes());
    let expected: Vec<u16> = text.encode_utf16().collect();
    assert_eq!(t.units, expected);
    assert_eq!(t.to_utf8.len(), t.units.len() + 1);
    assert_eq!(t.to_utf16.len(), text.len() + 1);
    for (b, _) in text.char_indices() {
        let u = t.to_utf16[b] as usize;
        assert_eq!(t.to_utf8[u] as usize, b);
    }
    assert_eq!(t.to_utf8[t.units.len()] as usize, text.len());
    assert_eq!(t.to_utf16[text.len()] as usize, t.units.len());
    assert_eq!(t.to_utf8, vec![0, 1, 3, 6, 6, 10, 11]);
}

#[test]
fn transcode_empty() {
    let t = utf8_to_utf16(b"");
    assert!(t.units.is_empty());
    assert_eq!(t.to_utf8, vec![0]);
    assert_eq!(t.to_utf16, vec![0]);
}
