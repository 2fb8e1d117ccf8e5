use zdu::tree_display::TreeDisplay;

fn prefix(tree: &TreeDisplay, has_children: bool) -> String {
	let mut output = String::new();
	tree.write_prefix(&mut output, has_children);
	output
}

#[test]
fn root_has_no_prefix() {
	let tree = TreeDisplay::new();
	assert_eq!(tree.depth(), 0);
	assert_eq!(prefix(&tree, true), "");
	assert_eq!(prefix(&tree, false), "");
}

#[test]
fn prefixes_by_depth() {
	let mut tree = TreeDisplay::new();
	tree.enter(0);
	assert_eq!(tree.depth(), 1);
	assert_eq!(prefix(&tree, false), "┌──╴");
	assert_eq!(prefix(&tree, true), "┌─┴╴");
	tree.leave();
	tree.enter(3);
	assert_eq!(prefix(&tree, false), "├──╴");
	tree.enter(0);
	assert_eq!(prefix(&tree, false), "│ ┌──╴");
	tree.leave();
	tree.leave();
	tree.enter(0);
	tree.enter(1);
	tree.enter(2);
	assert_eq!(tree.depth(), 3);
	assert_eq!(prefix(&tree, true), "  │ ├─┴╴");
}

#[test]
fn leave_at_root_stays() {
	let mut tree = TreeDisplay::new();
	tree.leave();
	assert_eq!(tree.depth(), 0);
	tree.enter(1);
	tree.leave();
	assert_eq!(tree.depth(), 0);
}

#[test]
fn write_prefix_appends() {
	let mut tree = TreeDisplay::new();
	tree.enter(1);
	let mut output = String::from("> ");
	tree.write_prefix(&mut output, false);
	assert_eq!(output, "> ├──╴");
}
