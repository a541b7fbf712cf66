use nam_installer::codec::RadioCheck;
use nam_installer::flatten::flatten_installer_options;
use nam_installer::resolve::resolve;
use nam_installer::tree::{folder_structure, SourceDir};

fn dir(name: &str, subdirs: Vec<SourceDir>) -> SourceDir {
    SourceDir { name: name.to_string(), subdirs: Some(subdirs) }
}

fn sample() -> Vec<SourceDir> {
    vec![
        dir("Roads~", vec![dir("Left-", vec![]), dir("Right=", vec![])]),
        dir("Extras!", vec![dir("Signs", vec![]), dir("Signs*", vec![])]),
    ]
}

#[test]
fn flatten_is_sorted_and_has_every_key_once() {
    let tree = folder_structure(&sample());
    let flat = flatten_installer_options(&vec![tree]);
    // root, Roads, Left, Right, Extras, and one of the two Signs.
    assert_eq!(flat.len(), 6);
    for i in 0..flat.len() {
        for j in 0..flat.len() {
            if i != j {
                assert!(!(flat[i].parent == flat[j].parent && flat[i].name == flat[j].name));
            }
        }
    }
    let kinds: Vec<RadioCheck> = flat.iter().map(|f| f.radio_check).collect();
    let mut sorted = kinds.clone();
    sorted.sort();
    assert_eq!(kinds, sorted);
    assert_eq!(flat[0].name, "Left-");
    assert_eq!(flat[1].name, "Right");
}

#[test]
fn flatten_keeps_the_first_of_equal_keys() {
    let tree = folder_structure(&sample());
    let flat = flatten_installer_options(&vec![tree]);
    let signs: Vec<_> = flat.iter().filter(|f| f.name == "Signs").collect();
    assert_eq!(signs.len(), 1);
    // Same kind, name and parent: the raw name decides, "Signs" < "Signs*".
    assert_eq!(signs[0].original_name, "Signs");
}

#[test]
fn flatten_twice_gives_the_same_list() {
    let first = flatten_installer_options(&vec![folder_structure(&sample())]);
    let second = flatten_installer_options(&vec![folder_structure(&sample())]);
    assert_eq!(first, second);
}

#[test]
fn flatten_marks_leaves() {
    let flat = flatten_installer_options(&vec![folder_structure(&sample())]);
    for f in &flat {
        let leaf = matches!(f.name.as_str(), "Left-" | "Right" | "Signs");
        assert_eq!(f.leaf, leaf, "{}", f.name);
    }
}

#[test]
fn resolve_leaves_only() {
    let flat = flatten_installer_options(&vec![folder_structure(&sample())]);
    let keys = vec![
        "top/Roads".to_string(),
        "top/Roads/Right".to_string(),
        "top/Missing".to_string(),
        "top/Extras/Signs".to_string(),
        "/Network Addon Mod".to_string(),
    ];
    let paths = resolve(&keys, &flat);
    assert_eq!(
        paths,
        vec!["installation/Roads~/Right=".to_string(), "installation/Extras!/Signs".to_string()]
    );
}

#[test]
fn resolve_container_key_is_a_no_op() {
    let flat = flatten_installer_options(&vec![folder_structure(&sample())]);
    assert!(resolve(&vec!["top/Extras".to_string()], &flat).is_empty());
    assert!(resolve(&vec![], &flat).is_empty());
}
