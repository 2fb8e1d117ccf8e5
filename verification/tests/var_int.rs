use zdu::util::{
	display_hex,
	var_int::{decode, encode},
};

#[test]
fn encode_decode() {
	let cases: [(u64, &[u8]); 18] = [
		(0x00, b"\x00".as_slice()),
		(0x01, b"\x01"),
		(0x02, b"\x02"),
		(0x7f, b"\x7f"),
		(0x80, b"\x80\x01"),
		(0x81, b"\x81\x01"),
		(0xfe, b"\xfe\x01"),
		(0xff, b"\xff\x01"),
		(0x3fff, b"\xff\x7f"),
		(0x4000, b"\x80\x80\x01"),
		(0x4001, b"\x81\x80\x01"),
		(0x1fffff, b"\xff\xff\x7f"),
		(0x200000, b"\x80\x80\x80\x01"),
		(0x200001, b"\x81\x80\x80\x01"),
		(0xfffffff, b"\xff\xff\xff\x7f"),
		(0x10000000, b"\x80\x80\x80\x80\x01"),
		(u64::MAX / 2, b"\xff\xff\xff\xff\xff\xff\xff\xff\x7f"),
		(u64::MAX, b"\xff\xff\xff\xff\xff\xff\xff\xff\xff"),
	];

	for (n, expected) in cases {
		let mut buffer = Vec::new();
		let bytes_written = encode(&mut buffer, n);
		assert_eq!(bytes_written as usize, buffer.len(), "Case {n} failed");
		assert_eq!(
			expected,
			buffer.as_slice(),
			"Expected encoding to yield {}, found {}",
			display_hex(expected),
			display_hex(&buffer)
		);

		let decoded = decode(&buffer);
		assert_eq!(decoded, Some((n, buffer.len())), "Expected decoding to yield {n:#018x}, found {decoded:?}");
	}
}

#[test]
fn decode_ignores_trailing_bytes() {
	assert_eq!(decode(b"\x81\x01\xff\xff"), Some((0x81, 2)));
}

#[test]
fn decode_stops_at_ninth_byte() {
	assert_eq!(decode(b"\xff\xff\xff\xff\xff\xff\xff\xff\xff\xff"), Some((u64::MAX, 9)));
}

#[test]
fn decode_truncated_is_none() {
	assert_eq!(decode(b""), None);
	assert_eq!(decode(b"\x80\x80"), None);
}

#[test]
fn encode_appends() {
	let mut buffer = vec![0xaa];
	assert_eq!(encode(&mut buffer, 300), 2);
	assert_eq!(buffer, [0xaa, 0xac, 0x02]);
}

#[test]
fn hex_display() {
	assert_eq!(display_hex(b""), "");
	assert_eq!(display_hex(b"\x00\x0f\xa5\xff"), "000fa5ff");
}
