use nam_installer::codec::RadioCheck;
use nam_installer::tree::{folder_structure, parse_folder, temp_files, BuildError, InstallerOption, SourceDir};

fn dir(name: &str, subdirs: Vec<SourceDir>) -> SourceDir {
    SourceDir { name: name.to_string(), subdirs: Some(subdirs) }
}

fn unreadable(name: &str) -> SourceDir {
    SourceDir { name: name.to_string(), subdirs: None }
}

#[test]
fn scenario_two_options_under_root() {
    // Root/OptionA~/file1 and Root/OptionB!/file2: files are not nodes.
    let listing = Some(vec![dir("OptionA~", vec![]), dir("OptionB!", vec![])]);
    let tree = temp_files(&listing).unwrap();
    assert_eq!(tree.children.len(), 2);
    let a = &tree.children[0];
    let b = &tree.children[1];
    assert_eq!(a.radio_check, RadioCheck::Locked);
    assert_eq!(b.radio_check, RadioCheck::Unchecked);
    assert_eq!(a.name, "OptionA");
    assert_eq!(b.name, "OptionB");
    assert_eq!(a.original_name, "OptionA~");
    assert_eq!(b.original_name, "OptionB!");
}

#[test]
fn root_node_identity() {
    let tree = folder_structure(&vec![]);
    assert_eq!(tree.name, "Network Addon Mod");
    assert_eq!(tree.original_name, "Network Addon Mod");
    assert_eq!(tree.radio_check, RadioCheck::Locked);
    assert_eq!(tree.depth, 0);
    assert_eq!(tree.parent, "");
    assert_eq!(tree.location, "");
    assert!(tree.children.is_empty());
}

#[test]
fn keys_depths_and_source_roots() {
    let listing = vec![dir("Roads~", vec![dir("Left$1-", vec![]), dir("Right=", vec![])])];
    let tree = folder_structure(&listing);
    let roads = &tree.children[0];
    assert_eq!(roads.depth, 1);
    assert_eq!(roads.parent, "top");
    assert_eq!(roads.location, "installation");
    let left = &roads.children[0];
    assert_eq!(left.name, "Left-");
    assert_eq!(left.radio_check, RadioCheck::Radio);
    assert_eq!(left.depth, 2);
    assert_eq!(left.parent, "top/Roads");
    assert_eq!(left.location, "installation/Roads~");
    let right = &roads.children[1];
    assert_eq!(right.radio_check, RadioCheck::RadioChecked);
    assert!(right.checked());
}

#[test]
fn unreadable_subtree_is_skipped() {
    let listing = vec![dir("A", vec![unreadable("Broken"), dir("Fine", vec![])]), unreadable("B")];
    let nodes = parse_folder(&listing, 0, "top", "installation");
    assert_eq!(nodes.len(), 1);
    assert_eq!(nodes[0].children.len(), 1);
    assert_eq!(nodes[0].children[0].name, "Fine");
}

#[test]
fn unreadable_root_is_an_error() {
    assert_eq!(temp_files(&None).unwrap_err(), BuildError::Unreadable);
}

#[test]
fn new_node_and_push_children() {
    let node = InstallerOption::new("Opt!$2".to_string(), RadioCheck::Unchecked);
    assert_eq!(node.name, "Opt");
    assert!(!node.checked());
    let child = InstallerOption::new("C".to_string(), RadioCheck::Checked);
    let own = InstallerOption::new("D".to_string(), RadioCheck::Checked);
    let node = node.push_children(vec![own]);
    let node = node.push_children(vec![child]);
    assert_eq!(node.children.len(), 2);
    assert_eq!(node.children[0].name, "C");
    assert_eq!(node.children[1].name, "D");
    assert_eq!(node.original_name, "Opt!$2");
}
