use nam_installer::codec::{prettify_folder_name, RadioCheck, UnknownKind};

#[test]
fn decode_priority_tilde_over_hash() {
    assert_eq!(RadioCheck::determine("Bridges~#"), RadioCheck::Locked);
}

#[test]
fn decode_priority_caret_over_equals() {
    assert_eq!(RadioCheck::determine("Roads^="), RadioCheck::ParentLocked);
}

#[test]
fn decode_each_sentinel() {
    assert_eq!(RadioCheck::determine("A~"), RadioCheck::Locked);
    assert_eq!(RadioCheck::determine("A^"), RadioCheck::ParentLocked);
    assert_eq!(RadioCheck::determine("A="), RadioCheck::RadioChecked);
    assert_eq!(RadioCheck::determine("Left-Hand"), RadioCheck::Radio);
    assert_eq!(RadioCheck::determine("Right+"), RadioCheck::Radio);
    assert_eq!(RadioCheck::determine("Group#"), RadioCheck::RadioFolder);
    assert_eq!(RadioCheck::determine("Optional!"), RadioCheck::Unchecked);
    assert_eq!(RadioCheck::determine("Plain"), RadioCheck::Checked);
    assert_eq!(RadioCheck::determine(""), RadioCheck::Checked);
}

#[test]
fn decode_hash_only_counts_at_end() {
    assert_eq!(RadioCheck::determine("#Group"), RadioCheck::Checked);
    assert_eq!(RadioCheck::determine("Gro!up"), RadioCheck::Unchecked);
}

#[test]
fn decode_radio_checked_over_radio() {
    assert_eq!(RadioCheck::determine("Opt-=1"), RadioCheck::RadioChecked);
}

#[test]
fn sanitize_removes_every_token() {
    assert_eq!(prettify_folder_name("$1Road^+=#!~*s"), "Roads");
    assert_eq!(prettify_folder_name("Left-Hand Drive$9!"), "Left-Hand Drive");
    assert_eq!(prettify_folder_name("Cost $0 and $"), "Cost $0 and $");
}

#[test]
fn sanitize_removes_tokens_exposed_by_removal() {
    assert_eq!(prettify_folder_name("A$^1B"), "AB");
    assert_eq!(prettify_folder_name("$$11"), "");
}

#[test]
fn sanitize_is_idempotent_on_samples() {
    for raw in ["A$^1B", "$$11", "Opt~#", "x$1$2y*", "plain", "", "$", "$*$9"] {
        let once = prettify_folder_name(raw);
        assert_eq!(prettify_folder_name(&once), once);
    }
}

#[test]
fn kind_from_its_name() {
    assert_eq!(RadioCheck::new("Locked"), Ok(RadioCheck::Locked));
    assert_eq!(RadioCheck::new("RadioFolder"), Ok(RadioCheck::RadioFolder));
    assert_eq!(RadioCheck::new("ParentLocked"), Ok(RadioCheck::ParentLocked));
}

#[test]
fn unknown_kind_name_is_an_error() {
    assert_eq!(
        RadioCheck::new("locked"),
        Err(UnknownKind { name: "locked".to_string() })
    );
}
