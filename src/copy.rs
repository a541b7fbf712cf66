//! Copy stage: the assets of each resolved source path and where they go
//! under the destination, with every sentinel token taken out of the path.

use crate::codec::{is_clean, is_marker, is_slot_digit, lemma_sanitized_is_clean, prettify_folder_name, sanitized};
use crate::resolve::string_views;
use crate::text::{
    chars_of, contains_str, find_last_slash, has_prefix, has_substring, last_slash,
    starts_with, string_of_range,
};
use crate::tree::joined;
use vstd::prelude::*;

verus! {

/// Prefix of a source path that the asset store does not have.
pub const BUILD_ROOT: &'static str = "installation/";

/// The asset-store key of a source path: the path without the build-root
/// prefix.
pub open spec fn asset_key(source: Seq<char>) -> Seq<char> {
    if has_prefix(source, BUILD_ROOT@) {
        source.skip(BUILD_ROOT@.len() as int)
    } else {
        source
    }
}

/// The assets, in store order, whose relative path contains `key`.
pub open spec fn matching(key: Seq<char>, assets: Seq<Seq<char>>) -> Seq<Seq<char>>
    decreases assets.len(),
{
    if assets.len() == 0 {
        Seq::empty()
    } else {
        let p = matching(key, assets.drop_last());
        if has_substring(assets.last(), key) {
            p.push(assets.last())
        } else {
            p
        }
    }
}

/// Where the asset at relative path `asset` is written under `dest`.
pub open spec fn install_target(dest: Seq<char>, asset: Seq<char>) -> Seq<char> {
    joined(dest, sanitized(asset))
}

/// The directory under `dest` that receives the asset at `asset`.
pub open spec fn install_folder(dest: Seq<char>, asset: Seq<char>) -> Seq<char> {
    if last_slash(asset) < 0 {
        dest
    } else {
        joined(dest, sanitized(asset.take(last_slash(asset))))
    }
}

/// One asset to copy: read `asset` from the store, create `folder`, write
/// the bytes to `target`.
#[derive(Debug, Clone, PartialEq, Eq)]
pub struct CopyAction {
    pub asset: String,
    pub folder: String,
    pub target: String,
}

pub struct CopyActionView {
    pub asset: Seq<char>,
    pub folder: Seq<char>,
    pub target: Seq<char>,
}

impl View for CopyAction {
    type V = CopyActionView;

    open spec fn view(&self) -> CopyActionView {
        CopyActionView { asset: self.asset@, folder: self.folder@, target: self.target@ }
    }
}

pub open spec fn action_of(dest: Seq<char>, asset: Seq<char>) -> CopyActionView {
    CopyActionView {
        asset,
        folder: install_folder(dest, asset),
        target: install_target(dest, asset),
    }
}

pub open spec fn action_views(s: Seq<CopyAction>) -> Seq<CopyActionView> {
    s.map_values(|a: CopyAction| a@)
}

/// The copies one source path asks for, and the name under which it is
/// reported once done.
#[derive(Debug, Clone, PartialEq, Eq)]
pub struct SourcePlan {
    pub copies: Vec<CopyAction>,
    pub label: String,
}

/// Sanitizing never reaches across a `/`: a path is sanitized segment by
/// segment.
pub proof fn lemma_sanitize_by_segment(a: Seq<char>, b: Seq<char>)
    ensures
        sanitized(a + seq!['/'] + b) == sanitized(a) + seq!['/'] + sanitized(b),
    decreases b.len(),
{
    let whole = a + seq!['/'] + b;
    if b.len() == 0 {
        assert(whole.drop_last() =~= a);
        assert(whole =~= a.push('/'));
        assert(sanitized(b) =~= Seq::<char>::empty());
        assert(sanitized(a) + seq!['/'] + sanitized(b) =~= sanitized(a).push('/'));
    } else {
        let b0 = b.drop_last();
        let c = b.last();
        lemma_sanitize_by_segment(a, b0);
        assert(whole.drop_last() =~= a + seq!['/'] + b0);
        assert(whole.last() == c);
        let x = sanitized(a);
        let y = sanitized(b0);
        let rest = x + seq!['/'] + y;
        assert(sanitized(whole.drop_last()) == rest);
        if is_marker(c) {
        } else if is_slot_digit(c) && rest.last() == '$' {
            if y.len() == 0 {
                assert(rest.last() == '/');
            }
            assert(rest.last() == y.last());
            assert(rest.drop_last() =~= x + seq!['/'] + y.drop_last());
        } else {
            if y.len() > 0 {
                assert(rest.last() == y.last());
            }
            assert(rest.push(c) =~= x + seq!['/'] + y.push(c));
        }
    }
}

/// No install target holds a sentinel token past the destination root,
/// whatever the asset path.
pub proof fn lemma_targets_are_clean(dest: Seq<char>, asset: Seq<char>)
    ensures
        has_prefix(install_target(dest, asset), dest + seq!['/']),
        is_clean(install_target(dest, asset).skip(dest.len() as int + 1)),
{
    let t = install_target(dest, asset);
    assert(t.take(dest.len() as int + 1) =~= dest + seq!['/']);
    assert(t.skip(dest.len() as int + 1) =~= sanitized(asset));
    lemma_sanitized_is_clean(asset);
}

/// `dest/asset` with every segment sanitized, and its directory.
fn action_for(dest: &str, asset: &String) -> (r: CopyAction)
    ensures
        r@ == action_of(dest@, asset@),
{
    proof {
        reveal_strlit("/");
    }
    let cs = chars_of(asset.as_str());
    let target = String::from_str(dest).concat("/").concat(prettify_folder_name(asset.as_str()).as_str());
    let folder = match find_last_slash(&cs) {
        None => String::from_str(dest),
        Some(k) => {
            proof {
                crate::text::lemma_last_slash_bounds(cs@);
            }
            let dir = string_of_range(&cs, 0, k);
            assert(dir@ == asset@.take(k as int));
            String::from_str(dest).concat("/").concat(prettify_folder_name(dir.as_str()).as_str())
        },
    };
    assert(cs@ == asset@);
    assert(target@ == install_target(dest@, asset@));
    assert(folder@ == install_folder(dest@, asset@));
    CopyAction { asset: asset.clone(), folder, target }
}

/// The copies for the resolved source path `source`: each asset of the
/// store whose relative path contains the source path's asset key, written
/// under `destination` at its sanitized relative path. The label is the
/// sanitized asset key.
pub fn plan_copies(source: &str, assets: &Vec<String>, destination: &str) -> (r: SourcePlan)
    ensures
        action_views(r.copies@) == matching(asset_key(source@), string_views(assets@)).map_values(
            |a: Seq<char>| action_of(destination@, a),
        ),
        r.label@ == sanitized(asset_key(source@)),
{
    let sc = chars_of(source);
    let key = if starts_with(source, BUILD_ROOT) {
        proof {
            reveal_strlit("installation/");
        }
        string_of_range(&sc, 13, sc.len())
    } else {
        String::from_str(source)
    };
    assert(key@ == asset_key(source@)) by {
        reveal_strlit("installation/");
        if has_prefix(source@, BUILD_ROOT@) {
            assert(sc@.subrange(13, sc@.len() as int) == source@.skip(13));
        }
    }
    let ghost av = string_views(assets@);
    let mut copies: Vec<CopyAction> = Vec::new();
    let mut i: usize = 0;
    assert(action_views(copies@) =~= matching(key@, av.take(0)).map_values(
        |a: Seq<char>| action_of(destination@, a),
    ));
    while i < assets.len()
        invariant
            i <= assets@.len(),
            av == string_views(assets@),
            action_views(copies@) == matching(key@, av.take(i as int)).map_values(
                |a: Seq<char>| action_of(destination@, a),
            ),
        decreases assets@.len() - i,
    {
        let ghost before = action_views(copies@);
        assert(av.take(i as int + 1).drop_last() == av.take(i as int));
        assert(av.take(i as int + 1).last() == assets@[i as int]@);
        if contains_str(assets[i].as_str(), key.as_str()) {
            let act = action_for(destination, &assets[i]);
            copies.push(act);
            assert(action_views(copies@) =~= before.push(act@));
            assert(matching(key@, av.take(i as int + 1)) == matching(key@, av.take(i as int)).push(
                assets@[i as int]@,
            ));
            assert(action_views(copies@) =~= matching(key@, av.take(i as int + 1)).map_values(
                |a: Seq<char>| action_of(destination@, a),
            ));
        } else {
            assert(matching(key@, av.take(i as int + 1)) == matching(key@, av.take(i as int)));
        }
        i = i + 1;
    }
    assert(av.take(assets@.len() as int) == av);
    let label = prettify_folder_name(key.as_str());
    SourcePlan { copies, label }
}

} // verus!
