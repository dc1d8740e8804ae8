use session_editor::uuid::format_uuid_v4;

fn reference(h1: u64, h2: u64) -> String {
    let mut bytes = [0u8; 16];
    bytes[..8].copy_from_slice(&h1.to_le_bytes());
    bytes[8..].copy_from_slice(&h2.to_le_bytes());
    bytes[6] = (bytes[6] & 0x0F) | 0x40;
    bytes[8] = (bytes[8] & 0x3F) | 0x80;
    let hex: Vec<String> = bytes.iter().map(|b| format!("{:02x}", b)).collect();
    format!(
        "{}-{}-{}-{}-{}",
        hex[0..4].concat(),
        hex[4..6].concat(),
        hex[6..8].concat(),
        hex[8..10].concat(),
        hex[10..16].concat()
    )
}

#[test]
fn known_values() {
    assert_eq!(format_uuid_v4(0, 0), "00000000-0000-4000-8000-000000000000");
    assert_eq!(format_uuid_v4(u64::MAX, u64::MAX), "ffffffff-ffff-4fff-bfff-ffffffffffff");
    assert_eq!(format_uuid_v4(0x0123_4567_89ab_cdef, 0xfedc_ba98_7654_3210), "efcdab89-6745-4301-9032-547698badcfe");
}

#[test]
fn shape_is_version_four() {
    let mut h: u64 = 0x9e37_79b9_7f4a_7c15;
    for _ in 0..200 {
        h = h.wrapping_mul(6364136223846793005).wrapping_add(1442695040888963407);
        let g = h.rotate_left(23) ^ 0x5555;
        let u = format_uuid_v4(h, g);
        assert_eq!(u, reference(h, g));
        let cs: Vec<char> = u.chars().collect();
        assert_eq!(cs.len(), 36);
        assert_eq!((cs[8], cs[13], cs[18], cs[23]), ('-', '-', '-', '-'));
        assert_eq!(cs[14], '4');
        assert!(matches!(cs[19], '8' | '9' | 'a' | 'b'));
    }
}
