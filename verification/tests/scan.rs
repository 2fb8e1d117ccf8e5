use zdu::{
	archive::{
		export::{Exporter, Metadata},
		EntryKind,
	},
	scan::{Args, EntryFacts, FileType, Scanner, Skip, StatsOverflow, Step},
	stats::Stats,
};

fn facts(dev: u64, ino: u64, nlink: u64, file_type: FileType) -> EntryFacts {
	EntryFacts { ignored: false, dev, ino, nlink, file_type }
}

#[test]
fn classify_kinds() {
	let mut args = Args::new(None, false);
	assert_eq!(args.depth, 0);
	assert_eq!(args.classify(facts(1, 1, 1, FileType::File)), Ok(EntryKind::File));
	assert_eq!(args.classify(facts(1, 2, 1, FileType::Dir)), Ok(EntryKind::Dir));
	assert_eq!(args.classify(facts(1, 3, 1, FileType::Symlink)), Ok(EntryKind::Symlink));
	assert_eq!(args.classify(facts(1, 4, 1, FileType::Other)), Err(Skip::UnknownType));
	// Entries with one link are never recorded
	assert_eq!(args.classify(facts(1, 1, 1, FileType::File)), Ok(EntryKind::File));
	assert!(args.hardlink_inodes_seen.is_empty());
}

#[test]
fn classify_ignored_and_other_filesystems() {
	let mut args = Args::new(Some(7), true);
	assert!(args.follow_symlinks);
	let ignored = EntryFacts { ignored: true, ..facts(7, 1, 1, FileType::File) };
	assert_eq!(args.classify(ignored), Err(Skip::Ignored));
	assert_eq!(args.classify(facts(8, 1, 2, FileType::File)), Err(Skip::OtherFilesystem));
	// Neither is recorded as seen
	assert!(args.hardlink_inodes_seen.is_empty());
	assert_eq!(args.classify(facts(7, 1, 1, FileType::File)), Ok(EntryKind::File));
}

#[test]
fn classify_hardlinks_and_loops() {
	let mut args = Args::new(None, true);
	assert_eq!(args.classify(facts(1, 10, 2, FileType::File)), Ok(EntryKind::File));
	assert_eq!(args.classify(facts(1, 10, 2, FileType::File)), Err(Skip::Hardlink));
	// The same inode on another device is another file
	assert_eq!(args.classify(facts(2, 10, 2, FileType::File)), Ok(EntryKind::File));
	assert_eq!(args.classify(facts(1, 20, 3, FileType::Dir)), Ok(EntryKind::Dir));
	assert_eq!(args.classify(facts(1, 20, 3, FileType::Dir)), Err(Skip::SymlinkLoop));
	assert!(args.hardlink_inodes_seen[&1].contains(&10));
	assert!(args.hardlink_inodes_seen[&1].contains(&20));
	assert!(args.hardlink_inodes_seen[&2].contains(&10));
}

fn file_facts(ino: u64) -> EntryFacts {
	facts(1, ino, 1, FileType::File)
}

fn dir_facts(ino: u64) -> EntryFacts {
	facts(1, ino, 1, FileType::Dir)
}

/// root/ { a (file 10), sub/ { b (file 20) }, link (symlink 3) }, written by the exporter itself
fn exported_sample() -> Vec<u8> {
	let mut exporter = Exporter::new();
	let root = exporter.write_entry_from_metadata(b"/root", Metadata { size: 4096, blocks: 8 });
	let root = root.write_dir(&mut exporter);
	exporter
		.write_entry_from_metadata(b"a", Metadata { size: 10, blocks: 1 })
		.write_file(&mut exporter);
	let sub = exporter.write_entry_from_metadata(b"sub", Metadata { size: 4096, blocks: 8 });
	let sub = sub.write_dir(&mut exporter);
	exporter
		.write_entry_from_metadata(b"b", Metadata { size: 20, blocks: 2 })
		.write_file(&mut exporter);
	sub.finish(&mut exporter, 1, Stats { files: 1, size: 20, blocks: 2 });
	exporter
		.write_entry_from_metadata(b"link", Metadata { size: 3, blocks: 0 })
		.write_symlink(&mut exporter);
	root.finish(&mut exporter, 3, Stats { files: 4, size: 4096 + 20 + 10 + 3, blocks: 8 + 2 + 1 });
	exporter.finish()
}

#[test]
fn scanner_writes_the_tree_it_is_told() {
	let mut scanner = Scanner::new(None, false);
	assert_eq!(scanner.entry(dir_facts(1), b"/root", Metadata { size: 4096, blocks: 8 }), Ok(Step::ListDir));
	assert!(scanner.is_listing());
	scanner.listed();
	assert_eq!(scanner.depth(), 1);
	assert_eq!(scanner.args().depth, 1);
	assert_eq!(
		scanner.entry(file_facts(2), b"a", Metadata { size: 10, blocks: 1 }),
		Ok(Step::Written(Stats { files: 1, size: 10, blocks: 1 }))
	);
	assert_eq!(scanner.entry(dir_facts(3), b"sub", Metadata { size: 4096, blocks: 8 }), Ok(Step::ListDir));
	scanner.listed();
	assert_eq!(scanner.depth(), 2);
	assert_eq!(
		scanner.entry(file_facts(4), b"b", Metadata { size: 20, blocks: 2 }),
		Ok(Step::Written(Stats { files: 1, size: 20, blocks: 2 }))
	);
	assert_eq!(scanner.close_dir(), Ok(Stats { files: 2, size: 4116, blocks: 10 }));
	assert_eq!(
		scanner.entry(facts(1, 5, 1, FileType::Symlink), b"link", Metadata { size: 3, blocks: 0 }),
		Ok(Step::Written(Stats { files: 1, size: 3, blocks: 0 }))
	);
	assert_eq!(scanner.close_dir(), Ok(Stats { files: 5, size: 8225, blocks: 19 }));
	assert_eq!(scanner.depth(), 0);
	let (archive, root) = scanner.finish();
	assert_eq!(archive, exported_sample());
	assert_eq!(root, Some(Stats { files: 5, size: 8225, blocks: 19 }));
}

#[test]
fn scanner_undoes_unlistable_directory() {
	let mut scanner = Scanner::new(None, false);
	scanner.entry(dir_facts(1), b"/root", Metadata { size: 4096, blocks: 8 }).unwrap();
	scanner.listed();
	scanner.entry(file_facts(2), b"a", Metadata { size: 10, blocks: 1 }).unwrap();
	assert_eq!(scanner.entry(dir_facts(3), b"locked", Metadata { size: 4096, blocks: 8 }), Ok(Step::ListDir));
	scanner.listing_failed();
	assert!(!scanner.is_listing());
	// Skipped entries leave no trace either
	let ignored = EntryFacts { ignored: true, ..file_facts(6) };
	assert_eq!(scanner.entry(ignored, b"ignored", Metadata { size: 1, blocks: 1 }), Ok(Step::Skipped(Skip::Ignored)));
	assert_eq!(
		scanner.entry(facts(1, 7, 1, FileType::Other), b"fifo", Metadata { size: 0, blocks: 0 }),
		Ok(Step::Skipped(Skip::UnknownType))
	);
	assert_eq!(scanner.close_dir(), Ok(Stats { files: 2, size: 4106, blocks: 9 }));
	let (archive, _) = scanner.finish();

	let mut exporter = Exporter::new();
	let root = exporter.write_entry_from_metadata(b"/root", Metadata { size: 4096, blocks: 8 });
	let root = root.write_dir(&mut exporter);
	exporter
		.write_entry_from_metadata(b"a", Metadata { size: 10, blocks: 1 })
		.write_file(&mut exporter);
	root.finish(&mut exporter, 1, Stats { files: 1, size: 10, blocks: 1 });
	assert_eq!(archive, exporter.finish());
}

#[test]
fn scanner_skips_hardlinks_seen() {
	let mut scanner = Scanner::new(None, false);
	scanner.entry(dir_facts(1), b"/root", Metadata { size: 0, blocks: 0 }).unwrap();
	scanner.listed();
	let linked = facts(1, 9, 2, FileType::File);
	assert!(matches!(scanner.entry(linked, b"x", Metadata { size: 5, blocks: 1 }), Ok(Step::Written(_))));
	assert_eq!(scanner.entry(linked, b"y", Metadata { size: 5, blocks: 1 }), Ok(Step::Skipped(Skip::Hardlink)));
	assert_eq!(scanner.close_dir(), Ok(Stats { files: 2, size: 5, blocks: 1 }));
}

#[test]
fn scanner_overflow_leaves_archive() {
	let mut scanner = Scanner::new(None, false);
	scanner.entry(dir_facts(1), b"/root", Metadata { size: 0, blocks: 0 }).unwrap();
	scanner.listed();
	scanner.entry(file_facts(2), b"big", Metadata { size: u64::MAX, blocks: 0 }).unwrap();
	assert_eq!(scanner.entry(file_facts(3), b"more", Metadata { size: 1, blocks: 0 }), Err(StatsOverflow));
	// The directory's own size does not fit with its entries' either
	assert_eq!(scanner.close_dir(), Ok(Stats { files: 2, size: u64::MAX, blocks: 0 }));

	let mut scanner = Scanner::new(None, false);
	scanner.entry(dir_facts(1), b"/root", Metadata { size: 1, blocks: 0 }).unwrap();
	scanner.listed();
	scanner.entry(file_facts(2), b"big", Metadata { size: u64::MAX, blocks: 0 }).unwrap();
	assert_eq!(scanner.close_dir(), Err(StatsOverflow));
	assert_eq!(scanner.depth(), 1);
}

#[test]
fn scanner_single_file_root() {
	let mut scanner = Scanner::new(Some(4), false);
	assert_eq!(scanner.entry(facts(5, 1, 1, FileType::File), b"f", Metadata { size: 1, blocks: 0 }), Ok(Step::Skipped(Skip::OtherFilesystem)));
	assert_eq!(
		scanner.entry(facts(4, 1, 1, FileType::File), b"f", Metadata { size: 1, blocks: 0 }),
		Ok(Step::Written(Stats { files: 1, size: 1, blocks: 0 }))
	);
	let (archive, root) = scanner.finish();
	assert_eq!(root, Some(Stats { files: 1, size: 1, blocks: 0 }));
	let mut exporter = Exporter::new();
	exporter
		.write_entry_from_metadata(b"f", Metadata { size: 1, blocks: 0 })
		.write_file(&mut exporter);
	assert_eq!(archive, exporter.finish());
}
