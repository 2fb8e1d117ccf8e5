use std::cmp::Ordering;
use zdu::{
	analyze::{
		analyze, display_entry,
		entry::{Entry, GroupEntry, ImportEntry},
		group_entries,
		sort::{SortOrder, SortOrderKind},
		AnalyzeLine, Config, EntryLabel,
	},
	archive::{
		export::{Exporter, Metadata},
		import::{DirEntry, DirEntryKind, DirHeader, File, ImportError, Importer},
	},
	args,
	stats::Stats,
	tree_display::TreeDisplay,
	util::OsStrRange,
};

/// root/ { a (file 10), sub/ { b (file 20) }, link (symlink 3) }
fn sample_archive() -> Vec<u8> {
	let mut exporter = Exporter::new();
	let root = exporter.write_entry_from_metadata(b"/root", Metadata { size: 4096, blocks: 8 });
	let root = root.write_dir(&mut exporter);

	exporter
		.write_entry_from_metadata(b"a", Metadata { size: 10, blocks: 1 })
		.write_file(&mut exporter);

	let sub = exporter.write_entry_from_metadata(b"sub", Metadata { size: 4096, blocks: 8 });
	let sub = sub.write_dir(&mut exporter);
	exporter
		.write_entry_from_metadata(b"b", Metadata { size: 20, blocks: 2 })
		.write_file(&mut exporter);
	sub.finish(&mut exporter, 1, Stats { files: 1, size: 20, blocks: 2 });

	exporter
		.write_entry_from_metadata(b"link", Metadata { size: 3, blocks: 0 })
		.write_symlink(&mut exporter);

	root.finish(&mut exporter, 3, Stats { files: 4, size: 4096 + 20 + 10 + 3, blocks: 8 + 2 + 1 });
	exporter.finish()
}

fn size_order() -> SortOrder {
	SortOrder { kind: SortOrderKind::Size, dirs_before: false, reverse: false }
}

fn run(config: Config) -> Result<Vec<AnalyzeLine>, ImportError> {
	let mut importer = Importer::new(sample_archive()).expect("valid archive");
	let mut name = Vec::new();
	let (root, _) = importer.read_entry(&mut name).expect("root entry");
	analyze(&mut importer, root, name, config)
}

fn line(prefix: &str, name: &[u8], stats: Stats, texts: (&str, &str), files: Option<u64>) -> AnalyzeLine {
	AnalyzeLine {
		prefix: prefix.to_owned(),
		label: EntryLabel::Name(name.to_vec()),
		stats,
		size: texts.0.to_owned(),
		disk_size: texts.1.to_owned(),
		files,
	}
}

fn stats(files: u64, size: u64, blocks: u64) -> Stats {
	Stats { files, size, blocks }
}

#[test]
fn analyze_whole_tree() {
	let lines = run(Config { max_depth: None, max_files_per_dir: None, sort_order: size_order() }).unwrap();
	assert_eq!(lines, vec![
		line("┌──╴", b"link", stats(1, 3, 0), ("3 B", "0 B"), None),
		line("├──╴", b"a", stats(1, 10, 1), ("10 B", "512 B"), None),
		line("│ ┌──╴", b"b", stats(1, 20, 2), ("20 B", "1 KiB"), None),
		line("├─┴╴", b"sub", stats(2, 4116, 10), ("4.02 KiB", "5 KiB"), Some(1)),
		line("", b"/root", stats(5, 8225, 19), ("8.03 KiB", "9.50 KiB"), Some(4)),
	]);
}

#[test]
fn analyze_reversed_order() {
	let order = SortOrder { kind: SortOrderKind::Size, dirs_before: false, reverse: true };
	let lines = run(Config { max_depth: None, max_files_per_dir: None, sort_order: order }).unwrap();
	let names: Vec<_> = lines
		.iter()
		.map(|line| match &line.label {
			EntryLabel::Name(name) => name.clone(),
			EntryLabel::Group { .. } => b"<group>".to_vec(),
		})
		.collect();
	assert_eq!(names, vec![b"b".to_vec(), b"sub".to_vec(), b"a".to_vec(), b"link".to_vec(), b"/root".to_vec()]);
	assert_eq!(lines[0].prefix, "  ┌──╴");
	assert_eq!(lines[1].prefix, "┌─┴╴");
	assert_eq!(lines[3].prefix, "├──╴");
}

#[test]
fn analyze_by_files_with_directories_first() {
	// `b` sorts before `a` by files alone only through the directory rule
	let order = SortOrder { kind: SortOrderKind::Files, dirs_before: true, reverse: false };
	let lines = run(Config { max_depth: None, max_files_per_dir: None, sort_order: order }).unwrap();
	assert_eq!(lines.len(), 5);
	assert_eq!(lines[3].label, EntryLabel::Name(b"sub".to_vec()));
	assert_eq!(lines[4].label, EntryLabel::Name(b"/root".to_vec()));
}

#[test]
fn analyze_groups_extra_files() {
	let lines = run(Config { max_depth: None, max_files_per_dir: Some(1), sort_order: size_order() }).unwrap();
	assert_eq!(lines, vec![
		AnalyzeLine {
			prefix: "┌──╴".to_owned(),
			label: EntryLabel::Group { len: 2 },
			stats: stats(2, 13, 1),
			size: "13 B".to_owned(),
			disk_size: "512 B".to_owned(),
			files: None,
		},
		line("│ ┌──╴", b"b", stats(1, 20, 2), ("20 B", "1 KiB"), None),
		line("├─┴╴", b"sub", stats(2, 4116, 10), ("4.02 KiB", "5 KiB"), Some(1)),
		line("", b"/root", stats(5, 8225, 19), ("8.03 KiB", "9.50 KiB"), Some(4)),
	]);
}

#[test]
fn analyze_max_depth_zero() {
	let lines = run(Config { max_depth: Some(0), max_files_per_dir: None, sort_order: size_order() }).unwrap();
	assert_eq!(lines, vec![line("", b"/root", stats(5, 8225, 19), ("8.03 KiB", "9.50 KiB"), Some(4))]);
}

#[test]
fn analyze_max_depth_one() {
	let lines = run(Config { max_depth: Some(1), max_files_per_dir: None, sort_order: size_order() }).unwrap();
	assert_eq!(lines, vec![
		line("┌──╴", b"link", stats(1, 3, 0), ("3 B", "0 B"), None),
		line("├──╴", b"a", stats(1, 10, 1), ("10 B", "512 B"), None),
		line("├──╴", b"sub", stats(2, 4116, 10), ("4.02 KiB", "5 KiB"), Some(1)),
		line("", b"/root", stats(5, 8225, 19), ("8.03 KiB", "9.50 KiB"), Some(4)),
	]);
}

#[test]
fn analyze_truncated_archive() {
	let mut bytes = sample_archive();
	bytes.truncate(bytes.len() - 3);
	let mut importer = Importer::new(bytes).unwrap();
	let mut name = Vec::new();
	let (root, _) = importer.read_entry(&mut name).unwrap();
	let res = analyze(&mut importer, root, name, Config {
		max_depth: None,
		max_files_per_dir: None,
		sort_order: size_order(),
	});
	assert_eq!(res, Err(ImportError::UnexpectedEof));
}

fn dir_entry(files: u64) -> Entry {
	Entry::Import(ImportEntry {
		name_range: OsStrRange { start: 0, end: 1 },
		stats: stats(files, 0, 0),
		import: DirEntry {
			import_pos: 0,
			kind: DirEntryKind::Dir(DirHeader { entries_offset: 0, entries_len: 0 }),
		},
	})
}

#[test]
fn display_entry_lines() {
	let names = b"d".to_vec();
	let mut tree = TreeDisplay::new();
	tree.enter(0);
	let line = display_entry(&dir_entry(3), &names, &tree, None).unwrap();
	assert_eq!(line.prefix, "┌──╴");
	assert_eq!(line.files, Some(2));
	assert_eq!(line.label, EntryLabel::Name(b"d".to_vec()));

	// A group counts the files within its entries
	let group = Entry::Group(GroupEntry { len: 2, stats: stats(5, 7, 1) });
	let line = display_entry(&group, &names, &tree, None).unwrap();
	assert_eq!(line.files, Some(3));
	assert_eq!(line.label, EntryLabel::Group { len: 2 });
	let group = Entry::Group(GroupEntry { len: 2, stats: stats(2, 7, 1) });
	assert_eq!(display_entry(&group, &names, &tree, None).unwrap().files, None);
}

#[test]
fn display_entry_invalid_stats() {
	let names = b"d".to_vec();
	let tree = TreeDisplay::new();
	assert_eq!(display_entry(&dir_entry(0), &names, &tree, None), Err(ImportError::InvalidStats));
	let group = Entry::Group(GroupEntry { len: 3, stats: stats(2, 0, 0) });
	assert_eq!(display_entry(&group, &names, &tree, None), Err(ImportError::InvalidStats));
}

fn file_entry(size: u64) -> Entry {
	Entry::Import(ImportEntry {
		name_range: OsStrRange { start: 0, end: 0 },
		stats: stats(1, size, 0),
		import: DirEntry { import_pos: 0, kind: DirEntryKind::File(File { size, blocks: 0 }) },
	})
}

#[test]
fn group_entries_places_group_by_rank() {
	let order = size_order();
	let mut entries = vec![file_entry(50), file_entry(40), file_entry(30), file_entry(20), file_entry(10)];
	assert_eq!(group_entries(order, &mut entries, Some(3)), Ok(()));
	assert_eq!(entries.len(), 4);
	// The group of 20 and 10 weighs 30, so it goes before the entry of 30, the first that does not rank above it
	assert_eq!(entries[0], file_entry(50));
	assert_eq!(entries[1], file_entry(40));
	assert_eq!(entries[2], Entry::Group(GroupEntry { len: 2, stats: stats(2, 30, 0) }));
	assert_eq!(entries[3], file_entry(30));

	// Among several entries of its rank, the group goes before all of them
	let mut entries = vec![file_entry(5), file_entry(3), file_entry(3), file_entry(2), file_entry(1)];
	assert_eq!(group_entries(order, &mut entries, Some(3)), Ok(()));
	assert_eq!(entries, vec![
		file_entry(5),
		Entry::Group(GroupEntry { len: 2, stats: stats(2, 3, 0) }),
		file_entry(3),
		file_entry(3),
	]);

	let mut entries = vec![file_entry(50), file_entry(40), file_entry(30)];
	assert_eq!(group_entries(order, &mut entries, Some(1)), Ok(()));
	assert_eq!(entries, vec![Entry::Group(GroupEntry { len: 2, stats: stats(2, 70, 0) }), file_entry(50)]);

	let mut entries = vec![file_entry(5), file_entry(4)];
	assert_eq!(group_entries(order, &mut entries, Some(2)), Ok(()));
	assert_eq!(entries, vec![file_entry(5), file_entry(4)]);
	assert_eq!(group_entries(order, &mut entries, None), Ok(()));
	assert_eq!(entries.len(), 2);
}

#[test]
fn group_entries_overflow() {
	let mut entries = vec![file_entry(1), file_entry(u64::MAX), file_entry(u64::MAX)];
	assert_eq!(group_entries(size_order(), &mut entries, Some(1)), Err(ImportError::InvalidStats));
}

#[test]
fn sort_entries_reversed_is_stable() {
	let order = size_order();
	let mut entries = vec![file_entry(1), file_entry(3), file_entry(2), file_entry(3)];
	if let Entry::Import(entry) = &mut entries[3] {
		entry.name_range = OsStrRange { start: 0, end: 1 };
	}
	let second_three = entries[3];
	order.sort_entries_reversed(&mut entries);
	assert_eq!(entries[0], file_entry(3));
	assert_eq!(entries[1], second_three);
	assert_eq!(entries[2], file_entry(2));
	assert_eq!(entries[3], file_entry(1));
}

#[test]
fn sort_order_from_flags() {
	let order = SortOrder::new(args::SortOrder::Blocks, true, false);
	assert_eq!(order, SortOrder { kind: SortOrderKind::Blocks, dirs_before: true, reverse: false });
	let order = SortOrder::new(args::SortOrder::Files, false, true);
	assert_eq!(order.kind, SortOrderKind::Files);
	assert!(order.reverse);
}

#[test]
fn cmp_entry_orders() {
	let order = size_order();
	assert_eq!(order.cmp_entry(&file_entry(1), &file_entry(2)), Ordering::Less);
	assert_eq!(order.cmp_entry(&file_entry(2), &file_entry(2)), Ordering::Equal);
	let reversed = SortOrder { reverse: true, ..order };
	assert_eq!(reversed.cmp_entry(&file_entry(1), &file_entry(2)), Ordering::Greater);
	// Directories go after files when sorted before them
	let dirs = SortOrder { dirs_before: true, ..order };
	assert_eq!(dirs.cmp_entry(&dir_entry(1), &file_entry(100)), Ordering::Greater);
	assert_eq!(dirs.cmp_entry(&file_entry(100), &dir_entry(1)), Ordering::Less);
	assert!(dir_entry(1).is_group_or_dir());
	assert!(dir_entry(1).is_import() && !dir_entry(1).is_group());
	let group = Entry::Group(GroupEntry { len: 1, stats: stats(1, 0, 0) });
	assert!(group.is_group() && !group.is_import() && group.is_group_or_dir());
	assert!(!file_entry(1).is_group_or_dir());
	assert_eq!(file_entry(7).stats(), stats(1, 7, 0));
}

