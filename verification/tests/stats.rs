use zdu::stats::{Stats, StatsDiff};

#[test]
fn stats_add() {
	let lhs = Stats { files: 1, size: 10, blocks: 2 };
	let rhs = Stats { files: 2, size: 5, blocks: 0 };
	assert_eq!(lhs.add(rhs), Stats { files: 3, size: 15, blocks: 2 });
	let mut sum = lhs;
	sum.add_assign(rhs);
	assert_eq!(sum, Stats { files: 3, size: 15, blocks: 2 });
	assert_eq!(lhs.checked_add(rhs), Some(Stats { files: 3, size: 15, blocks: 2 }));
	assert_eq!(Stats::default(), Stats { files: 0, size: 0, blocks: 0 });
}

#[test]
fn stats_checked_add_overflow() {
	let big = Stats { files: 1, size: u64::MAX, blocks: 0 };
	assert_eq!(big.checked_add(Stats { files: 0, size: 1, blocks: 0 }), None);
	assert_eq!(big.checked_add(Stats::default()), Some(big));
}

#[test]
fn stats_diff_add() {
	let lhs = StatsDiff { add: Stats { files: 1, size: 1, blocks: 1 }, remove: Stats { files: 2, size: 2, blocks: 2 } };
	let rhs = StatsDiff { add: Stats { files: 3, size: 3, blocks: 3 }, remove: Stats::default() };
	let sum = StatsDiff { add: Stats { files: 4, size: 4, blocks: 4 }, remove: Stats { files: 2, size: 2, blocks: 2 } };
	assert_eq!(lhs.add(rhs), sum);
	let mut acc = lhs;
	acc.add_assign(rhs);
	assert_eq!(acc, sum);
	assert_eq!(lhs.checked_add(rhs), Some(sum));
	let full = StatsDiff { add: Stats::default(), remove: Stats { files: u64::MAX, size: 0, blocks: 0 } };
	assert_eq!(full.checked_add(lhs), None);
	assert_eq!(StatsDiff::default(), StatsDiff { add: Stats::default(), remove: Stats::default() });
}
