use zdu::{
	archive::{
		export::{Exporter, Metadata},
		import::{ImportError, Importer},
	},
	find_duplicates::{
		duplicate_groups, duplicate_overhead, find_duplicates, DigestFiles, DuplicateGroup, FilesBySize, FoundEntry,
		Output,
	},
	stats::Stats,
	util::{display_hex, empty_md5, file_md5},
};

/// root/ { a (file 10), sub/ { b (file 20), e (file 0) }, link (symlink 3) }
fn sample_archive() -> Vec<u8> {
	let mut exporter = Exporter::new();
	let root = exporter.write_entry_from_metadata(b"/root", Metadata { size: 4096, blocks: 8 });
	let root = root.write_dir(&mut exporter);
	exporter
		.write_entry_from_metadata(b"a", Metadata { size: 10, blocks: 1 })
		.write_file(&mut exporter);
	let sub = exporter.write_entry_from_metadata(b"sub", Metadata { size: 4096, blocks: 8 });
	let sub = sub.write_dir(&mut exporter);
	exporter
		.write_entry_from_metadata(b"b", Metadata { size: 20, blocks: 2 })
		.write_file(&mut exporter);
	exporter
		.write_entry_from_metadata(b"e", Metadata { size: 0, blocks: 0 })
		.write_file(&mut exporter);
	sub.finish(&mut exporter, 2, Stats { files: 2, size: 20, blocks: 2 });
	exporter
		.write_entry_from_metadata(b"link", Metadata { size: 3, blocks: 0 })
		.write_symlink(&mut exporter);
	root.finish(&mut exporter, 3, Stats { files: 5, size: 4096 + 20 + 10 + 3, blocks: 8 + 2 + 1 });
	exporter.finish()
}

#[test]
fn walk_finds_files_in_archive_order() {
	let mut importer = Importer::new(sample_archive()).unwrap();
	let mut name = Vec::new();
	let (root, _) = importer.read_entry(&mut name).unwrap();
	let found = find_duplicates(&mut importer, root, b"/mnt/root".to_vec()).unwrap();
	assert_eq!(found, vec![
		FoundEntry::File { path: b"/mnt/root/a".to_vec(), size: 10 },
		FoundEntry::File { path: b"/mnt/root/sub/b".to_vec(), size: 20 },
		FoundEntry::File { path: b"/mnt/root/sub/e".to_vec(), size: 0 },
		FoundEntry::Symlink { path: b"/mnt/root/link".to_vec() },
	]);
}

#[test]
fn walk_of_a_file() {
	let mut exporter = Exporter::new();
	exporter
		.write_entry_from_metadata(b"f", Metadata { size: 5, blocks: 1 })
		.write_file(&mut exporter);
	let mut importer = Importer::new(exporter.finish()).unwrap();
	let mut name = Vec::new();
	let (file, _) = importer.read_entry(&mut name).unwrap();
	let found = find_duplicates(&mut importer, file, b"f".to_vec()).unwrap();
	assert_eq!(found, vec![FoundEntry::File { path: b"f".to_vec(), size: 5 }]);
}

#[test]
fn walk_of_truncated_archive() {
	let mut bytes = sample_archive();
	bytes.truncate(bytes.len() - 1);
	let mut importer = Importer::new(bytes).unwrap();
	let mut name = Vec::new();
	let (root, _) = importer.read_entry(&mut name).unwrap();
	assert_eq!(find_duplicates(&mut importer, root, b"/root".to_vec()), Err(ImportError::UnexpectedEof));
}

#[test]
fn output_records_files_by_size_and_digest() {
	let mut output = Output::new();
	assert_eq!(output.files_total, 0);

	output.empty_file(b"e".to_vec());
	let empty = &output.files_by_size[&0];
	assert_eq!(empty.files_by_md5.len(), 1);
	assert_eq!(empty.files_by_md5[0].digest, empty_md5());
	assert_eq!(empty.files_by_md5[0].files, vec![b"e".to_vec()]);
	assert_eq!((output.files_total, output.files_read), (1, 0));

	// The first file of a size is left unread
	assert_eq!(output.begin_file(5), None);
	assert_eq!(output.needs_hash(5, b"p1".to_vec()), None);
	assert_eq!(output.files_by_size[&5].last_unread, Some(b"p1".to_vec()));

	// The second one makes the first one be read
	assert_eq!(output.begin_file(5), Some(b"p1".to_vec()));
	assert_eq!(output.files_by_size[&5].last_unread, None);
	let digest = file_md5(b"hello");
	assert_eq!(display_hex(&digest), "5d41402abc4b2a76b9719d911017c592");
	output.unread_hashed(5, b"p1".to_vec(), Some(&b"hello"[..]));
	assert_eq!(output.needs_hash(5, b"p2".to_vec()), Some(b"p2".to_vec()));
	output.file_hashed(5, b"p2".to_vec(), Some(&b"hello"[..]));

	// A third one with another digest
	assert_eq!(output.begin_file(5), None);
	assert_eq!(output.needs_hash(5, b"p3".to_vec()), Some(b"p3".to_vec()));
	output.file_hashed(5, b"p3".to_vec(), Some(&b"world"[..]));

	let five = &output.files_by_size[&5];
	assert_eq!(five.files_by_md5.len(), 2);
	assert_eq!(five.files_by_md5[0].digest, digest);
	assert_eq!(five.files_by_md5[0].files, vec![b"p1".to_vec(), b"p2".to_vec()]);
	assert_eq!(five.files_by_md5[1].files, vec![b"p3".to_vec()]);
	assert_eq!(output.files_total, 4);
	assert_eq!(output.files_read, 3);
	assert_eq!(output.size_total, 15);
	assert_eq!(output.size_read, 15);
}

#[test]
fn output_skips_unreadable_files() {
	let mut output = Output::new();
	assert_eq!(output.begin_file(7), None);
	assert_eq!(output.needs_hash(7, b"a".to_vec()), None);
	assert_eq!(output.begin_file(7), Some(b"a".to_vec()));
	// The unread file could not be read: it counts as read, but joins no digest
	output.unread_hashed(7, b"a".to_vec(), None);
	assert_eq!(output.files_read, 1);
	assert!(output.files_by_size[&7].files_by_md5.is_empty());
	// So the next one is left unread in turn
	assert_eq!(output.needs_hash(7, b"b".to_vec()), None);
	assert_eq!(output.files_by_size[&7].last_unread, Some(b"b".to_vec()));
	// A file that cannot be read does not count
	let mut output = Output::new();
	output.begin_file(3);
	output.needs_hash(3, b"x".to_vec());
	output.begin_file(3);
	output.unread_hashed(3, b"x".to_vec(), Some(&b"abc"[..]));
	assert_eq!(output.needs_hash(3, b"y".to_vec()), Some(b"y".to_vec()));
	output.file_hashed(3, b"y".to_vec(), None);
	assert_eq!(output.files_read, 1);
	assert_eq!(output.size_read, 3);
	assert_eq!(output.files_by_size[&3].files_by_md5[0].files, vec![b"x".to_vec()]);
}

fn paths(names: &[&[u8]]) -> Vec<Vec<u8>> {
	names.iter().map(|name| name.to_vec()).collect()
}

#[test]
fn duplicate_groups_by_size() {
	let files_by_size = vec![
		(20, FilesBySize {
			last_unread: None,
			files_by_md5: vec![
				DigestFiles { digest: [1; 16], files: paths(&[b"a", b"b"]) },
				DigestFiles { digest: [2; 16], files: paths(&[b"c"]) },
			],
		}),
		(5, FilesBySize { last_unread: Some(b"x".to_vec()), files_by_md5: vec![] }),
		(10, FilesBySize {
			last_unread: None,
			files_by_md5: vec![DigestFiles { digest: [3; 16], files: paths(&[b"e", b"f", b"g"]) }],
		}),
	];
	let groups = duplicate_groups(files_by_size);
	assert_eq!(groups, vec![
		DuplicateGroup { size: 10, digest: [3; 16], files: paths(&[b"e", b"f", b"g"]) },
		DuplicateGroup { size: 20, digest: [1; 16], files: paths(&[b"a", b"b"]) },
	]);
	assert_eq!(duplicate_overhead(&groups), 2 * 10 + 20);
}

#[test]
fn duplicate_groups_none() {
	assert_eq!(duplicate_groups(vec![]), vec![]);
	let single = vec![(7, FilesBySize {
		last_unread: None,
		files_by_md5: vec![DigestFiles { digest: [0; 16], files: paths(&[b"only"]) }],
	})];
	assert_eq!(duplicate_groups(single), vec![]);
	assert_eq!(duplicate_overhead(&vec![]), 0);
}

#[test]
fn duplicates_from_recorded_files() {
	let mut output = Output::new();
	output.empty_file(b"e1".to_vec());
	output.empty_file(b"e2".to_vec());
	output.begin_file(4);
	output.needs_hash(4, b"lonely".to_vec());
	let groups = duplicate_groups(output.files_by_size.into_iter().collect());
	assert_eq!(groups, vec![DuplicateGroup { size: 0, digest: empty_md5(), files: paths(&[b"e1", b"e2"]) }]);
	assert_eq!(duplicate_overhead(&groups), 0);
}

#[test]
fn output_found_skips_symlinks_and_records_empty_files() {
	let mut output = Output::new();
	assert_eq!(output.found(FoundEntry::Symlink { path: b"l".to_vec() }), None);
	assert_eq!((output.files_total, output.files_by_size.len()), (0, 0));
	assert_eq!(output.found(FoundEntry::File { path: b"e".to_vec(), size: 0 }), None);
	assert_eq!(output.files_total, 1);
	assert_eq!(output.files_by_size[&0].files_by_md5[0].digest, empty_md5());
	assert_eq!(empty_md5(), file_md5(b""));
	assert_eq!(output.found(FoundEntry::File { path: b"f".to_vec(), size: 4 }), Some((4, b"f".to_vec())));
	assert_eq!(output.files_total, 1);
}
