use zdu::{
	archive::{
		export::{
			write_archive_header, write_dir_footer, write_dir_header, write_file, write_os_str, write_symlink,
			write_u64, write_u64_fixed, write_u8, Exporter, Metadata,
		},
		import::{
			read_archive_header, read_dir_footer, read_dir_header, read_entry, read_file, read_os_str, read_symlink,
			read_u64, read_u64_fixed, read_u8, DirEntryKind, DirHeader, ImportError, Importer, MagicBytes,
			PathComponent,
		},
		EntryKind, ARCHIVE_VERSION, DIR_HEADER_SIZE, MAGIC,
	},
	stats::Stats,
	util::{path::relative_path_components, OsStrRange},
};

/// Builds the archive of a tree:
/// root/ { a (file 10, 1 block), sub/ { b (file 20, 2 blocks) }, link (symlink 3, 0 blocks) }
fn sample_archive() -> Vec<u8> {
	let mut exporter = Exporter::new();
	let root = exporter.write_entry_from_metadata(b"/root", Metadata { size: 4096, blocks: 8 });
	let root = root.write_dir(&mut exporter);

	exporter
		.write_entry_from_metadata(b"a", Metadata { size: 10, blocks: 1 })
		.write_file(&mut exporter);

	let sub = exporter.write_entry_from_metadata(b"sub", Metadata { size: 4096, blocks: 8 });
	let sub = sub.write_dir(&mut exporter);
	exporter
		.write_entry_from_metadata(b"b", Metadata { size: 20, blocks: 2 })
		.write_file(&mut exporter);
	sub.finish(&mut exporter, 1, Stats { files: 1, size: 20, blocks: 2 });

	exporter
		.write_entry_from_metadata(b"link", Metadata { size: 3, blocks: 0 })
		.write_symlink(&mut exporter);

	root.finish(&mut exporter, 3, Stats { files: 4, size: 4096 + 20 + 10 + 3, blocks: 8 + 2 + 1 });
	exporter.finish()
}

#[test]
fn archive_header_roundtrip() {
	let mut bytes = Vec::new();
	write_archive_header(&mut bytes);
	assert_eq!(bytes, b"zduA\0\0\0\0");
	assert_eq!(read_archive_header(&bytes), Ok(8));
	assert_eq!(MAGIC, *b"zduA");
	assert_eq!(ARCHIVE_VERSION, 0);
	assert_eq!(DIR_HEADER_SIZE, 16);
}

#[test]
fn archive_header_errors() {
	assert_eq!(read_archive_header(b"zdu"), Err(ImportError::UnexpectedEof));
	assert_eq!(
		read_archive_header(b"abcd\0\0\0\0"),
		Err(ImportError::WrongMagic { found: MagicBytes(b'a', b'b', b'c', b'd') })
	);
	assert_eq!(read_archive_header(b"zduA\0\0"), Err(ImportError::UnexpectedEof));
	assert_eq!(read_archive_header(b"zduA\x01\0\0\0"), Err(ImportError::WrongVersion { found: 1 }));
	assert!(matches!(Importer::new(b"nope".to_vec()), Err(ImportError::WrongMagic { .. })));
}

#[test]
fn fixed_and_small_values() {
	let mut bytes = Vec::new();
	write_u64_fixed(&mut bytes, 0x0102_0304_0506_0708);
	assert_eq!(bytes, [8, 7, 6, 5, 4, 3, 2, 1]);
	assert_eq!(read_u64_fixed(&bytes, 0), Ok((0x0102_0304_0506_0708, 8)));
	assert_eq!(read_u64_fixed(&bytes, 1), Err(ImportError::UnexpectedEof));

	let mut bytes = Vec::new();
	write_u8(&mut bytes, 7);
	write_u64(&mut bytes, 300);
	assert_eq!(bytes, [7, 0xac, 0x02]);
	assert_eq!(read_u8(&bytes, 0), Ok((7, 1)));
	assert_eq!(read_u64(&bytes, 1), Ok((300, 3)));
	assert_eq!(read_u8(&bytes, 3), Err(ImportError::UnexpectedEof));
	assert_eq!(read_u64(&bytes, 3), Err(ImportError::UnexpectedEof));
}

#[test]
fn records_roundtrip() {
	let mut bytes = Vec::new();
	write_dir_header(&mut bytes, 123, 4);
	assert_eq!(bytes.len(), 16);
	assert_eq!(read_dir_header(&bytes, 0), Ok((DirHeader { entries_offset: 123, entries_len: 4 }, 16)));

	let stats = Stats { files: 3, size: 1000, blocks: 9 };
	let mut bytes = Vec::new();
	write_dir_footer(&mut bytes, stats);
	assert_eq!(bytes, [0xe8, 0x07, 9, 3]);
	let (footer, end) = read_dir_footer(&bytes, 0).unwrap();
	assert_eq!(footer.stats, stats);
	assert_eq!(end, 4);

	let mut bytes = Vec::new();
	write_file(&mut bytes, 5, 6);
	write_symlink(&mut bytes, 7, 8);
	let (file, end) = read_file(&bytes, 0).unwrap();
	assert_eq!((file.size, file.blocks, end), (5, 6, 2));
	let (symlink, end) = read_symlink(&bytes, 2).unwrap();
	assert_eq!((symlink.size, symlink.blocks, end), (7, 8, 4));
}

#[test]
fn names_roundtrip() {
	let mut bytes = Vec::new();
	write_os_str(&mut bytes, b"hello");
	assert_eq!(bytes, b"hello\0");
	let mut names = b"xy".to_vec();
	assert_eq!(read_os_str(&bytes, 0, &mut names), Ok((OsStrRange { start: 2, end: 7 }, 6)));
	assert_eq!(names, b"xyhello");

	// Without a nul byte, the rest is still appended
	let mut names = Vec::new();
	assert_eq!(read_os_str(b"abc", 1, &mut names), Err(ImportError::UnexpectedEof));
	assert_eq!(names, b"bc");
}

#[test]
fn entry_errors() {
	let mut names = Vec::new();
	assert_eq!(read_entry(b"name\0\x07", 0, &mut names).unwrap_err(), ImportError::UnknownKind { kind: 7 });
	let mut names = Vec::new();
	assert_eq!(read_entry(b"name\0", 0, &mut names).unwrap_err(), ImportError::UnexpectedEof);
	let mut names = Vec::new();
	assert_eq!(read_entry(b"name\0\x00\x01", 0, &mut names).unwrap_err(), ImportError::UnexpectedEof);
	assert_eq!(EntryKind::from_repr(2), Some(EntryKind::Symlink));
	assert_eq!(EntryKind::from_repr(3), None);
	assert_eq!(EntryKind::File.repr(), 1);
}

#[test]
fn exporter_writes_what_importer_reads() {
	let archive = sample_archive();
	let mut importer = Importer::new(archive).unwrap();

	let mut names = Vec::new();
	let (root, range) = importer.read_entry(&mut names).unwrap();
	assert_eq!(range, OsStrRange { start: 0, end: 5 });
	assert_eq!(names, b"/root");
	let DirEntryKind::Dir(root_dir) = root.kind else {
		panic!("root should be a directory");
	};
	assert_eq!(root_dir.entries_len, 3);
	assert!(root.has_children());

	let (a, _) = importer.read_entry(&mut names).unwrap();
	assert_eq!(names, b"/roota");
	let DirEntryKind::File(a_file) = a.kind else { panic!("a should be a file") };
	assert_eq!((a_file.size, a_file.blocks), (10, 1));
	assert!(!a.has_children());
	assert_eq!(importer.read_entry_stats(a).unwrap(), Stats { files: 1, size: 10, blocks: 1 });

	let (sub, _) = importer.read_entry(&mut names).unwrap();
	assert!(sub.kind.is_dir());
	assert_eq!(importer.read_entry_stats(sub).unwrap(), Stats { files: 2, size: 4096 + 20, blocks: 10 });

	let (link, _) = importer.read_entry(&mut names).unwrap();
	let DirEntryKind::Symlink(link) = link.kind else { panic!("link should be a symlink") };
	assert_eq!((link.size, link.blocks), (3, 0));

	let footer = importer.read_dir_footer().unwrap();
	assert_eq!(footer.stats, Stats { files: 5, size: 4096 + 4096 + 20 + 10 + 3, blocks: 8 + 8 + 2 + 1 });
	assert_eq!(names, b"/rootasublink");
}

#[test]
fn skipping_directory_entries_reaches_footer() {
	let archive = sample_archive();
	let mut importer = Importer::new(archive).unwrap();
	let mut names = Vec::new();
	let (root, _) = importer.read_entry(&mut names).unwrap();
	let DirEntryKind::Dir(dir) = root.kind else { panic!("root should be a directory") };
	importer.skip_dir_entries(dir).unwrap();
	assert_eq!(importer.read_dir_footer().unwrap().stats.files, 5);

	// Seeking back to the entry reads its entries again
	importer.seek_entry(&root);
	let (a, _) = importer.read_entry(&mut names).unwrap();
	assert!(matches!(a.kind, DirEntryKind::File(_)));

	let too_far = DirHeader { entries_offset: u64::MAX, entries_len: 0 };
	assert_eq!(
		importer.skip_dir_entries(too_far),
		Err(ImportError::EntriesOffsetTooLarge { offset: u64::MAX })
	);
}

#[test]
fn undo_last_entry_drops_it() {
	let mut exporter = Exporter::new();
	let before = exporter.position();
	let entry = exporter.write_entry_from_metadata(b"gone", Metadata { size: 1, blocks: 1 });
	let _dir = entry.write_dir(&mut exporter);
	assert!(exporter.position() > before);
	exporter.undo_last_entry();
	assert_eq!(exporter.position(), before);
	assert_eq!(exporter.finish(), b"zduA\0\0\0\0");
}

#[test]
fn seek_components_finds_nested_entries() {
	let archive = sample_archive();
	let mut importer = Importer::new(archive).unwrap();
	let mut root_path = Vec::new();
	let (root, _) = importer.read_entry(&mut root_path).unwrap();

	let path = [PathComponent::CurDir, PathComponent::Normal(b"sub".to_vec()), PathComponent::Normal(b"b".to_vec())];
	let (entry, entry_path) = importer.seek_components(root, root_path, &path).unwrap();
	assert_eq!(entry_path, b"/root/sub/b");
	let DirEntryKind::File(file) = entry.kind else { panic!("b should be a file") };
	assert_eq!((file.size, file.blocks), (20, 2));
}

#[test]
fn seek_components_errors() {
	let archive = sample_archive();
	let mut importer = Importer::new(archive.clone()).unwrap();
	let mut root_path = Vec::new();
	let (root, _) = importer.read_entry(&mut root_path).unwrap();
	let path = [PathComponent::Normal(b"missing".to_vec())];
	assert_eq!(
		importer.seek_components(root, root_path.clone(), &path),
		Err(ImportError::EntryNotFound { component: 0 })
	);

	let mut importer = Importer::new(archive.clone()).unwrap();
	let (root, _) = importer.read_entry(&mut Vec::new()).unwrap();
	let path = [PathComponent::Normal(b"a".to_vec()), PathComponent::Normal(b"x".to_vec())];
	assert_eq!(
		importer.seek_components(root, root_path.clone(), &path),
		Err(ImportError::NotADirectory { component: 1 })
	);

	let mut importer = Importer::new(archive).unwrap();
	let (root, _) = importer.read_entry(&mut Vec::new()).unwrap();
	let path = [PathComponent::ParentDir];
	assert_eq!(
		importer.seek_components(root, root_path, &path),
		Err(ImportError::ParentDirUnsupported { component: 0 })
	);
}

/// Opens the sample archive and reads its root
fn sample_root() -> (Importer, zdu::archive::import::DirEntry, Vec<u8>) {
	let mut importer = Importer::new(sample_archive()).unwrap();
	let mut root_path = Vec::new();
	let (root, _) = importer.read_entry(&mut root_path).unwrap();
	(importer, root, root_path)
}

#[test]
fn seek_path_takes_relative_and_absolute_paths() {
	for path in [&b"./sub/b"[..], b"sub//b/", b"/root/sub/./b", b"/root//sub/b/"] {
		let (mut importer, root, root_path) = sample_root();
		let (entry, entry_path) = importer.seek_path(root, root_path, path).unwrap();
		assert_eq!(entry_path, b"/root/sub/b");
		let DirEntryKind::File(file) = entry.kind else { panic!("b should be a file") };
		assert_eq!((file.size, file.blocks), (20, 2));
	}

	let (mut importer, root, root_path) = sample_root();
	let (entry, entry_path) = importer.seek_path(root, root_path, b"/root").unwrap();
	assert_eq!(entry, root);
	assert_eq!(entry_path, b"/root");
}

#[test]
fn seek_path_refuses_absolute_paths_outside_the_tree() {
	for path in [&b"/other/sub"[..], b"/roots/sub", b"/", b"/ro"] {
		let (mut importer, root, root_path) = sample_root();
		assert_eq!(
			importer.seek_path(root, root_path, path),
			Err(ImportError::PathNotWithinTree)
		);
		// Nothing was read: the root's first entry comes next
		let mut name = Vec::new();
		importer.read_entry(&mut name).unwrap();
		assert_eq!(name, b"a");
	}
}

#[test]
fn seek_path_errors_index_relative_components() {
	let (mut importer, root, root_path) = sample_root();
	assert_eq!(
		importer.seek_path(root, root_path, b"/root/a/x"),
		Err(ImportError::NotADirectory { component: 1 })
	);
	let (mut importer, root, root_path) = sample_root();
	assert_eq!(
		importer.seek_path(root, root_path, b"./missing"),
		Err(ImportError::EntryNotFound { component: 1 })
	);
	let (mut importer, root, root_path) = sample_root();
	assert_eq!(
		importer.seek_path(root, root_path, b"sub/../a"),
		Err(ImportError::ParentDirUnsupported { component: 1 })
	);
}

#[test]
fn relative_path_components_split_as_std_does() {
	assert_eq!(
		relative_path_components(b"/root", b"./a//./b/"),
		Some(vec![
			PathComponent::CurDir,
			PathComponent::Normal(b"a".to_vec()),
			PathComponent::Normal(b"b".to_vec()),
		])
	);
	assert_eq!(
		relative_path_components(b"/root/", b"/root/./x/.."),
		Some(vec![PathComponent::Normal(b"x".to_vec()), PathComponent::ParentDir])
	);
	assert_eq!(relative_path_components(b"/root", b"/root"), Some(vec![]));
	assert_eq!(relative_path_components(b"/root", b""), Some(vec![]));
	assert_eq!(relative_path_components(b"root", b"/root/a"), None);
	assert_eq!(relative_path_components(b"/root", b"/rooted/a"), None);
}
