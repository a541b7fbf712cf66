use nam_installer::assets::{
    calculate_folders, decoded_request, doc_request, folders_then_paths, image_request, remove_all, AssetRequest,
    InstallAssetList,
};

fn listing(paths: &[&str]) -> InstallAssetList {
    InstallAssetList { list: paths.iter().map(|p| p.to_string()).collect() }
}

#[test]
fn filters_keep_listing_order() {
    let all = listing(&["a.txt", "b.png", "c.dat", "d.jpg", "e.txt.bak"]);
    assert_eq!(all.clone().filter_images().to_vec(), vec!["b.png", "d.jpg"]);
    assert_eq!(all.clone().filter_docs().to_vec(), vec!["a.txt", "e.txt.bak"]);
    assert_eq!(all.to_vec().len(), 5);
}

#[test]
fn remove_all_occurrences() {
    assert_eq!(remove_all("installation/a/installation/b", "installation/"), "a/b");
    assert_eq!(remove_all("aaa", "aa"), "a");
    assert_eq!(remove_all("abc", ""), "abc");
}

#[test]
fn doc_request_for_root() {
    let docs = listing(&["installation/Main.txt"]);
    assert_eq!(doc_request("installation", &docs), AssetRequest::Overview);
    assert_eq!(doc_request("%2FNetwork%20Addon%20Mod", &docs), AssetRequest::Overview);
}

#[test]
fn doc_request_for_folder() {
    let docs = listing(&[
        "installation/Roads~/readme.txt",
        "installation\\Roads~\\Deep\\More\\x.txt",
        "installation/Other/notes.txt",
        "installation/Roads~/image.png",
    ]);
    assert_eq!(
        doc_request("Roads~", &docs),
        AssetRequest::Files(vec!["Roads~/readme.txt".to_string()])
    );
}

#[test]
fn image_request_decodes_name() {
    let images = listing(&["installation/Left Hand/pic.png", "installation/Right/pic.png"]);
    assert_eq!(
        image_request("Left%20Hand", &images),
        AssetRequest::Files(vec!["Left Hand/pic.png".to_string()])
    );
    assert_eq!(image_request("Nothing", &images), AssetRequest::Files(vec![]));
}

#[test]
fn folders_before_paths() {
    let mut paths = vec![
        "b/x/file1".to_string(),
        "a/file2".to_string(),
        "b/x/file3".to_string(),
        "top".to_string(),
    ];
    let r = calculate_folders(&mut paths);
    assert!(paths.is_empty());
    assert_eq!(r, vec!["a/", "b/x/", "b/x/file1", "a/file2", "b/x/file3", "top"]);
}

#[test]
fn decoded_request_takes_the_name_as_given() {
    let docs = listing(&["installation/Left Hand/a.txt", "installation/Left%20Hand/b.txt"]);
    assert_eq!(
        decoded_request("Left%20Hand", &docs, "txt"),
        AssetRequest::Files(vec!["Left%20Hand/b.txt".to_string()])
    );
    assert_eq!(
        decoded_request("installation/Left Hand", &docs, "txt"),
        AssetRequest::Files(vec!["Left Hand/a.txt".to_string()])
    );
    assert_eq!(decoded_request("/Network Addon Mod", &docs, "txt"), AssetRequest::Overview);
}

#[test]
fn folders_from_given_names() {
    let mut paths = vec!["x/a/a".to_string(), "y/b".to_string(), "z".to_string()];
    let names = vec![Some("a".to_string()), None, Some("z".to_string())];
    let r = folders_then_paths(&mut paths, &names);
    assert!(paths.is_empty());
    assert_eq!(r, vec!["x//", "x/a/a", "y/b", "z"]);
}
