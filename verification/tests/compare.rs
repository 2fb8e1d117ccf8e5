use zdu::{
	archive::{
		export::{Exporter, Metadata},
		import::{DirEntryKind, ImportError, Importer},
	},
	compare::{
		compare, entry_changes, name_display, Change, Changes, CompareLine, Config, Entry, NameDisplay, SizeChange,
	},
	stats::{Stats, StatsDiff},
	tree_display::TreeDisplay,
	util::OsStrRange,
};

/// Builds `name/ { files..., sub/ { b (file 20) } }`, with the files given by name and size
fn archive(name: &[u8], files: &[(&[u8], u64)]) -> Vec<u8> {
	let mut exporter = Exporter::new();
	let root = exporter.write_entry_from_metadata(name, Metadata { size: 100, blocks: 1 });
	let root = root.write_dir(&mut exporter);
	let mut children = Stats { files: 0, size: 0, blocks: 0 };
	for &(file, size) in files {
		exporter
			.write_entry_from_metadata(file, Metadata { size, blocks: 0 })
			.write_file(&mut exporter);
		children = children.add(Stats { files: 1, size, blocks: 0 });
	}
	let sub = exporter.write_entry_from_metadata(b"sub", Metadata { size: 100, blocks: 1 });
	let sub = sub.write_dir(&mut exporter);
	exporter
		.write_entry_from_metadata(b"b", Metadata { size: 20, blocks: 0 })
		.write_file(&mut exporter);
	sub.finish(&mut exporter, 1, Stats { files: 1, size: 20, blocks: 0 });
	children = children.add(Stats { files: 2, size: 120, blocks: 1 });
	root.finish(&mut exporter, files.len() as u64 + 1, children);
	exporter.finish()
}

fn run(lhs: Vec<u8>, rhs: Vec<u8>, config: Config) -> Result<Vec<CompareLine>, ImportError> {
	let mut lhs_importer = Importer::new(lhs).unwrap();
	let mut rhs_importer = Importer::new(rhs).unwrap();
	let mut lhs_name = Vec::new();
	let mut rhs_name = Vec::new();
	let (lhs_root, _) = lhs_importer.read_entry(&mut lhs_name).unwrap();
	let (rhs_root, _) = rhs_importer.read_entry(&mut rhs_name).unwrap();
	compare(&mut lhs_importer, &mut rhs_importer, lhs_root, rhs_root, &lhs_name, &rhs_name, config)
}

fn stats(files: u64, size: u64, blocks: u64) -> Stats {
	Stats { files, size, blocks }
}

#[test]
fn compare_added_and_removed() {
	let lhs = archive(b"/root", &[(b"a", 10), (b"link", 3)]);
	let rhs = archive(b"/root", &[(b"a", 15), (b"c", 5)]);
	let lines = run(lhs, rhs, Config { max_depth: None, show_unchanged: false }).unwrap();
	assert_eq!(lines, vec![
		CompareLine {
			prefix: "┌──╴".to_owned(),
			change: Change::Added {
				name: b"c".to_vec(),
				stats: stats(1, 5, 0),
				size_text: "5 B".to_owned(),
				disk_text: "0 B".to_owned(),
			},
		},
		CompareLine {
			prefix: "├──╴".to_owned(),
			change: Change::Removed {
				name: b"link".to_vec(),
				stats: stats(1, 3, 0),
				size_text: "3 B".to_owned(),
				disk_text: "0 B".to_owned(),
			},
		},
		CompareLine {
			prefix: "".to_owned(),
			change: Change::Changed {
				name: NameDisplay::Same(b"/root".to_vec()),
				size: SizeChange::Grew(2),
				blocks: SizeChange::Unchanged,
				size_text: "+2 B".to_owned(),
				blocks_text: "0 B".to_owned(),
				files_added: 1,
				files_removed: 1,
			},
		},
	]);
}

#[test]
fn compare_show_unchanged() {
	let lhs = archive(b"/root", &[(b"a", 10)]);
	let rhs = archive(b"/root", &[(b"a", 10)]);
	let lines = run(lhs, rhs, Config { max_depth: None, show_unchanged: true }).unwrap();
	let prefixes: Vec<_> = lines.iter().map(|line| line.prefix.as_str()).collect();
	assert_eq!(prefixes, vec!["┌──╴", "│ ┌──╴", "├─┴╴", ""]);
	let unchanged = Change::Changed {
		name: NameDisplay::Same(b"a".to_vec()),
		size: SizeChange::Unchanged,
		blocks: SizeChange::Unchanged,
		size_text: "0 B".to_owned(),
		blocks_text: "0 B".to_owned(),
		files_added: 0,
		files_removed: 0,
	};
	assert_eq!(lines[0].change, unchanged);
}

#[test]
fn compare_unchanged_shows_only_root() {
	let lhs = archive(b"/root", &[(b"a", 10)]);
	let rhs = archive(b"/root", &[(b"a", 10)]);
	let lines = run(lhs, rhs, Config { max_depth: None, show_unchanged: false }).unwrap();
	assert_eq!(lines, vec![CompareLine {
		prefix: "".to_owned(),
		change: Change::Changed {
			name: NameDisplay::Same(b"/root".to_vec()),
			size: SizeChange::Unchanged,
			blocks: SizeChange::Unchanged,
			size_text: "0 B".to_owned(),
			blocks_text: "0 B".to_owned(),
			files_added: 0,
			files_removed: 0,
		},
	}]);
}

#[test]
fn compare_differing_root_names() {
	let lhs = archive(b"/data/v1/root", &[(b"x", 1)]);
	let rhs = archive(b"/data/v2/root", &[]);
	let lines = run(lhs, rhs, Config { max_depth: None, show_unchanged: false }).unwrap();
	assert_eq!(lines.len(), 2);
	assert_eq!(lines[0].prefix, "┌──╴");
	assert_eq!(lines[0].change, Change::Removed {
		name: b"x".to_vec(),
		stats: stats(1, 1, 0),
		size_text: "1 B".to_owned(),
		disk_text: "0 B".to_owned(),
	});
	assert_eq!(lines[1].change, Change::Changed {
		name: NameDisplay::Differ {
			prefix: b"/data/v".to_vec(),
			lhs: b"1".to_vec(),
			rhs: b"2".to_vec(),
			suffix: b"/root".to_vec(),
		},
		size: SizeChange::Shrank(1),
		blocks: SizeChange::Unchanged,
		size_text: "-1 B".to_owned(),
		blocks_text: "0 B".to_owned(),
		files_added: 0,
		files_removed: 1,
	});
	assert_eq!(lines[1].prefix, "");
}

#[test]
fn compare_max_depth_hides_deeper_lines() {
	let lhs = archive(b"/root", &[(b"a", 10)]);
	let rhs = archive(b"/root", &[(b"a", 10), (b"z", 1)]);
	let lines = run(lhs, rhs, Config { max_depth: Some(0), show_unchanged: true }).unwrap();
	// The added file lies at depth 1, above the maximum depth of 0
	assert_eq!(lines.len(), 1);
	assert_eq!(lines[0].change, Change::Changed {
		name: NameDisplay::Same(b"/root".to_vec()),
		size: SizeChange::Grew(1),
		blocks: SizeChange::Unchanged,
		size_text: "+1 B".to_owned(),
		blocks_text: "0 B".to_owned(),
		files_added: 1,
		files_removed: 0,
	});
}

#[test]
fn compare_truncated_archive() {
	let lhs = archive(b"/root", &[(b"a", 10)]);
	let mut rhs = archive(b"/root", &[(b"a", 10)]);
	rhs.truncate(rhs.len() - 2);
	assert_eq!(run(lhs, rhs, Config { max_depth: None, show_unchanged: false }), Err(ImportError::UnexpectedEof));
}

#[test]
fn name_display_parts() {
	assert_eq!(name_display(b"same", b"same"), NameDisplay::Same(b"same".to_vec()));
	assert_eq!(name_display(b"foo_1.txt", b"foo_2.txt"), NameDisplay::Differ {
		prefix: b"foo_".to_vec(),
		lhs: b"1".to_vec(),
		rhs: b"2".to_vec(),
		suffix: b".txt".to_vec(),
	});
	assert_eq!(name_display(b"ab", b"abc"), NameDisplay::Differ {
		prefix: b"ab".to_vec(),
		lhs: b"".to_vec(),
		rhs: b"c".to_vec(),
		suffix: b"".to_vec(),
	});
}

#[test]
fn entry_changes_rules() {
	let names = b"ab".to_vec();
	let lhs_name = OsStrRange { start: 0, end: 1 };
	let rhs_name = OsStrRange { start: 1, end: 2 };
	let zero = stats(0, 0, 0);
	let mut tree = TreeDisplay::new();
	tree.enter(0);
	let config = Config { max_depth: None, show_unchanged: false };

	// An unchanged entry below the root is not shown
	let unchanged = Changes::Changed {
		lhs_entry_name: lhs_name,
		rhs_entry_name: rhs_name,
		diff: StatsDiff { add: zero, remove: zero },
	};
	assert_eq!(entry_changes(&unchanged, false, &names, &tree, config), None);
	// ... unless unchanged entries are shown
	let shown = entry_changes(&unchanged, false, &names, &tree, Config { show_unchanged: true, ..config });
	assert!(shown.is_some());

	// Equal sizes with files moved around are shown
	let moved = Changes::Changed {
		lhs_entry_name: lhs_name,
		rhs_entry_name: rhs_name,
		diff: StatsDiff { add: stats(1, 5, 2), remove: stats(2, 5, 1) },
	};
	let line = entry_changes(&moved, true, &names, &tree, config).unwrap();
	assert_eq!(line.prefix, "┌─┴╴");
	assert_eq!(line.change, Change::Changed {
		name: NameDisplay::Differ { prefix: vec![], lhs: b"a".to_vec(), rhs: b"b".to_vec(), suffix: vec![] },
		size: SizeChange::Unchanged,
		blocks: SizeChange::Grew(1),
		size_text: "0 B".to_owned(),
		blocks_text: "+512 B".to_owned(),
		files_added: 1,
		files_removed: 2,
	});

	// Below the maximum depth nothing is shown
	tree.enter(1);
	tree.enter(0);
	let added = Changes::Added { rhs_entry_name: rhs_name, stats: stats(1, 3, 0) };
	assert_eq!(entry_changes(&added, false, &names, &tree, Config { max_depth: Some(2), ..config }), None);
	let line = entry_changes(&added, false, &names, &tree, Config { max_depth: Some(3), ..config }).unwrap();
	assert_eq!(line.prefix, "  │ ┌──╴");
	assert_eq!(line.change, Change::Added {
		name: b"b".to_vec(),
		stats: stats(1, 3, 0),
		size_text: "3 B".to_owned(),
		disk_text: "0 B".to_owned(),
	});
}

#[test]
fn read_dir_reads_entries_and_totals_them() {
	let bytes = archive(b"/root", &[(b"a", 10), (b"c", 5)]);
	let mut importer = Importer::new(bytes).unwrap();
	let mut names = Vec::new();
	let (root, _) = importer.read_entry(&mut names).unwrap();
	let DirEntryKind::Dir(dir) = root.kind else { panic!("root is a directory") };
	let mut entries = Vec::new();
	let (dir_stats, range) = Entry::read_dir(&mut importer, dir, &mut entries, &mut names).unwrap();
	assert_eq!(range, 0..3);
	// The total of the entries read: a, c and sub; not the footer's, which counts the directory itself
	assert_eq!(dir_stats, stats(4, 135, 1));
	assert_eq!(entries.len(), 3);
	assert_eq!(&names[entries[0].name_range.start..entries[0].name_range.end], b"a");
	assert_eq!(entries[1].stats, stats(1, 5, 0));
	assert_eq!(entries[2].stats, stats(2, 120, 1));
	assert_eq!(&names[..5], b"/root");
}

#[test]
fn read_dir_totals_the_entries_read() {
	let data = archive(b"/root", &[(b"a", 10), (b"c", 5)]);
	let mut importer = Importer::new(data).unwrap();
	let mut names = Vec::new();
	let (root, _) = importer.read_entry(&mut names).unwrap();
	let dir = match root.kind {
		DirEntryKind::Dir(dir) => dir,
		_ => panic!("root should be a directory"),
	};
	importer.seek_entry(&root);
	let mut entries: Vec<Entry> = Vec::new();
	let (total, range) = Entry::read_dir(&mut importer, dir, &mut entries, &mut names).unwrap();
	assert_eq!(range, 0..3);
	let mut sum = stats(0, 0, 0);
	for entry in &entries {
		sum = sum.add(entry.stats);
	}
	assert_eq!(total, sum);
	assert_eq!(total.files, 2 + entries[2].stats.files);
}

#[test]
fn read_dir_of_empty_dir_totals_nothing() {
	let mut exporter = Exporter::new();
	let root = exporter.write_entry_from_metadata(b"/empty", Metadata { size: 100, blocks: 1 });
	let root = root.write_dir(&mut exporter);
	root.finish(&mut exporter, 0, stats(0, 0, 0));
	let mut importer = Importer::new(exporter.finish()).unwrap();
	let mut names = Vec::new();
	let (root, _) = importer.read_entry(&mut names).unwrap();
	let dir = match root.kind {
		DirEntryKind::Dir(dir) => dir,
		_ => panic!("root should be a directory"),
	};
	importer.seek_entry(&root);
	let mut entries: Vec<Entry> = Vec::new();
	let (total, range) = Entry::read_dir(&mut importer, dir, &mut entries, &mut names).unwrap();
	assert_eq!(range, 0..0);
	assert_eq!(total, stats(0, 0, 0));
}
