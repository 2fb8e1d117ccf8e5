use zdu::{
	stats::disk_usage,
	util::{
		bytes_eq, bytes_le_exec, common_os_str_prefix, common_os_str_suffix, empty_md5, fmt_size, push_path,
		strip_prefix, strip_suffix, OsStrRange,
	},
};

#[test]
fn common_prefix_parts() {
	assert_eq!(common_os_str_prefix(b"abcdef", b"abcxyz"), (&b"abc"[..], &b"def"[..], &b"xyz"[..]));
	// No common prefix
	assert_eq!(common_os_str_prefix(b"xyz", b"abc"), (&b""[..], &b"xyz"[..], &b"abc"[..]));
	// Equal strings
	assert_eq!(common_os_str_prefix(b"same", b"same"), (&b"same"[..], &b""[..], &b""[..]));
	// One a prefix of the other
	assert_eq!(common_os_str_prefix(b"ab", b"abcd"), (&b"ab"[..], &b""[..], &b"cd"[..]));
	assert_eq!(common_os_str_prefix(b"", b"a"), (&b""[..], &b""[..], &b"a"[..]));
}

#[test]
fn common_suffix_parts() {
	assert_eq!(common_os_str_suffix(b"file.txt", b"other.txt"), (&b"file"[..], &b"other"[..], &b".txt"[..]));
	// No common suffix
	assert_eq!(common_os_str_suffix(b"ab", b"cd"), (&b"ab"[..], &b"cd"[..], &b""[..]));
	// Equal strings
	assert_eq!(common_os_str_suffix(b"same", b"same"), (&b""[..], &b""[..], &b"same"[..]));
	// One a suffix of the other
	assert_eq!(common_os_str_suffix(b"cd", b"abcd"), (&b""[..], &b"ab"[..], &b"cd"[..]));
}

#[test]
fn common_prefix_splits_on_character_boundaries() {
	let e_acute = "é".as_bytes(); // c3 a9
	let e_grave = "è".as_bytes(); // c3 a8
	// The shared lead byte alone is no prefix: both names stay whole
	assert_eq!(common_os_str_prefix(e_acute, e_grave), (&b""[..], e_acute, e_grave));
	assert_eq!(
		common_os_str_prefix("aé".as_bytes(), "aè".as_bytes()),
		(&b"a"[..], e_acute, e_grave)
	);
	assert_eq!(
		common_os_str_prefix("éa".as_bytes(), "éb".as_bytes()),
		(e_acute, &b"a"[..], &b"b"[..])
	);
	// Bytes that are no UTF-8 split only at a boundary of both names
	assert_eq!(
		common_os_str_prefix(&[0xff, 0xfe, 0x01], &[0xff, 0xfe, 0x02]),
		(&[0xffu8, 0xfe][..], &[0x01u8][..], &[0x02u8][..])
	);
	assert_eq!(
		common_os_str_prefix(&[0xff, 0xfe, 0x80], &[0xff, 0xfe, 0x81]),
		(&b""[..], &[0xffu8, 0xfe, 0x80][..], &[0xffu8, 0xfe, 0x81][..])
	);
}

#[test]
fn common_suffix_splits_on_character_boundaries() {
	let e_acute = "é".as_bytes(); // c3 a9
	let u_tilde = "ũ".as_bytes(); // c5 a9
	// The shared trailing byte alone is no suffix: both names stay whole
	assert_eq!(common_os_str_suffix(e_acute, u_tilde), (e_acute, u_tilde, &b""[..]));
	assert_eq!(
		common_os_str_suffix("éa".as_bytes(), "ũa".as_bytes()),
		(e_acute, u_tilde, &b"a"[..])
	);
	assert_eq!(
		common_os_str_suffix("aé".as_bytes(), "bé".as_bytes()),
		(&b"a"[..], &b"b"[..], e_acute)
	);
}

#[test]
fn strip_prefix_and_suffix() {
	assert_eq!(strip_prefix(b"prefix-rest", b"prefix-"), Some(&b"rest"[..]));
	assert_eq!(strip_prefix(b"pre", b"prefix"), None);
	assert_eq!(strip_prefix(b"abc", b"b"), None);
	assert_eq!(strip_prefix(b"abc", b""), Some(&b"abc"[..]));
	assert_eq!(strip_suffix(b"name.txt", b".txt"), Some(&b"name"[..]));
	assert_eq!(strip_suffix(b"txt", b".txt"), None);
	assert_eq!(strip_suffix(b"abc", b"b"), None);
}

#[test]
fn push_path_like_path_buf() {
	let cases: [(&[u8], &[u8], &[u8]); 5] = [
		(b"a", b"b", b"a/b"),
		(b"a/", b"b", b"a/b"),
		(b"", b"b", b"b"),
		(b"a", b"/b", b"/b"),
		(b"/", b"etc", b"/etc"),
	];
	for (buf, path, expected) in cases {
		let mut buf = buf.to_vec();
		push_path(&mut buf, path);
		assert_eq!(buf, expected);
		let mut path_buf = std::path::PathBuf::from(String::from_utf8(buf.clone()).unwrap());
		path_buf.push("x");
		let mut pushed = buf.clone();
		push_path(&mut pushed, b"x");
		assert_eq!(pushed, path_buf.to_str().unwrap().as_bytes());
	}
}

#[test]
fn byte_comparisons() {
	assert!(bytes_eq(b"abc", b"abc"));
	assert!(!bytes_eq(b"abc", b"abd"));
	assert!(!bytes_eq(b"abc", b"ab"));
	assert!(bytes_le_exec(b"abc", b"abd"));
	assert!(bytes_le_exec(b"ab", b"abc"));
	assert!(bytes_le_exec(b"abc", b"abc"));
	assert!(!bytes_le_exec(b"b", b"abc"));
	assert!(!bytes_le_exec(b"abc", b"ab"));
	assert_eq!(bytes_le_exec(b"\xff", b"a"), b"\xff".as_slice() <= b"a".as_slice());
}

#[test]
fn md5_of_nothing() {
	let expected: [u8; 16] = [
		0xd4, 0x1d, 0x8c, 0xd9, 0x8f, 0x00, 0xb2, 0x04, 0xe9, 0x80, 0x09, 0x98, 0xec, 0xf8, 0x42, 0x7e,
	];
	assert_eq!(empty_md5(), expected);
}

#[test]
fn os_str_range_index() {
	let names = b"onetwo";
	let range = OsStrRange::from(3..6);
	assert_eq!(range, OsStrRange { start: 3, end: 6 });
	assert_eq!(range.index(names), b"two");
	assert_eq!(OsStrRange { start: 0, end: 0 }.index(names), b"");
}

#[test]
fn sizes_formatted_with_binary_units() {
	assert_eq!(fmt_size(0), "0 B");
	assert_eq!(fmt_size(1023), "1023 B");
	assert_eq!(fmt_size(1024), "1 KiB");
	assert_eq!(fmt_size(1536), "1.50 KiB");
	assert_eq!(fmt_size(4116), "4.02 KiB");
	assert_eq!(fmt_size(3 * 1024 * 1024), "3 MiB");
}

#[test]
fn disk_usage_of_blocks() {
	assert_eq!(disk_usage(0), 0);
	assert_eq!(disk_usage(3), 1536);
	assert_eq!(disk_usage(u64::MAX), u64::MAX.wrapping_mul(512));
}
