//! Selection resolution: selection keys to the source paths of the leaf
//! options they name.

use crate::flatten::{views, FlatOption, FlatView};
use crate::tree::joined;
use vstd::prelude::*;

verus! {

/// Selection key of an entry: `parent key/display name`.
pub open spec fn key_of(e: FlatView) -> Seq<char> {
    joined(e.parent, e.name)
}

/// Source path of an entry: `source root/raw name`.
pub open spec fn source_path(e: FlatView) -> Seq<char> {
    joined(e.location, e.original_name)
}

pub open spec fn string_views(s: Seq<String>) -> Seq<Seq<char>> {
    s.map_values(|x: String| x@)
}

/// Index of the first entry of `flat` whose key is `k`, or -1.
pub open spec fn match_index(flat: Seq<FlatView>, k: Seq<char>) -> int
    decreases flat.len(),
{
    if flat.len() == 0 {
        -1
    } else {
        let r = match_index(flat.drop_last(), k);
        if r >= 0 {
            r
        } else if key_of(flat.last()) == k {
            flat.len() - 1
        } else {
            -1
        }
    }
}

/// The source paths that `keys` select, in order: for each key, the first
/// entry with that key if it is a leaf; nothing for a key that names a
/// container or no entry.
pub open spec fn resolved(keys: Seq<Seq<char>>, flat: Seq<FlatView>) -> Seq<Seq<char>>
    decreases keys.len(),
{
    if keys.len() == 0 {
        Seq::empty()
    } else {
        let prev = resolved(keys.drop_last(), flat);
        let i = match_index(flat, keys.last());
        if i >= 0 && flat[i].leaf {
            prev.push(source_path(flat[i]))
        } else {
            prev
        }
    }
}

proof fn lemma_match_index_bounds(flat: Seq<FlatView>, k: Seq<char>)
    ensures
        -1 <= match_index(flat, k) < flat.len(),
        match_index(flat, k) >= 0 ==> key_of(flat[match_index(flat, k)]) == k,
    decreases flat.len(),
{
    if flat.len() > 0 {
        lemma_match_index_bounds(flat.drop_last(), k);
        let r = match_index(flat.drop_last(), k);
        if r >= 0 {
            assert(flat.drop_last()[r] == flat[r]);
        }
    }
}

/// The first entry with key `k` is at `i` when no earlier one has it.
proof fn lemma_match_found(flat: Seq<FlatView>, k: Seq<char>, i: int)
    requires
        0 <= i < flat.len(),
        key_of(flat[i]) == k,
        forall|m: int| 0 <= m < i ==> key_of(#[trigger] flat[m]) != k,
    ensures
        match_index(flat, k) == i,
    decreases flat.len(),
{
    if i < flat.len() - 1 {
        let p = flat.drop_last();
        assert(p[i] == flat[i]);
        assert forall|m: int| 0 <= m < i implies key_of(#[trigger] p[m]) != k by {
            assert(p[m] == flat[m]);
        }
        lemma_match_found(p, k, i);
    } else {
        lemma_match_missing(flat.drop_last(), k);
    }
}

/// No entry with key `k`, no match.
proof fn lemma_match_missing(flat: Seq<FlatView>, k: Seq<char>)
    requires
        forall|m: int| 0 <= m < flat.len() ==> key_of(#[trigger] flat[m]) != k,
    ensures
        match_index(flat, k) == -1,
    decreases flat.len(),
{
    if flat.len() > 0 {
        let p = flat.drop_last();
        assert forall|m: int| 0 <= m < p.len() implies key_of(#[trigger] p[m]) != k by {
            assert(p[m] == flat[m]);
        }
        lemma_match_missing(p, k);
        assert(key_of(flat[flat.len() - 1]) != k);
    }
}

/// Each of `paths` is the source path of a leaf entry of `flat`.
pub open spec fn only_leaf_paths(paths: Seq<Seq<char>>, flat: Seq<FlatView>) -> bool {
    forall|p: int|
        0 <= p < paths.len() ==> exists|j: int|
            0 <= j < flat.len() && flat[j].leaf && #[trigger] paths[p] == source_path(flat[j])
}

/// Resolution never yields a path for a key that names an option with
/// children: each path it yields is the source path of a leaf, and a key
/// whose first match is a container adds nothing.
pub proof fn lemma_resolve_only_leaves(keys: Seq<Seq<char>>, flat: Seq<FlatView>, k: Seq<char>)
    ensures
        only_leaf_paths(resolved(keys, flat), flat),
        match_index(flat, k) >= 0 && !flat[match_index(flat, k)].leaf ==> resolved(
            keys.push(k),
            flat,
        ) == resolved(keys, flat),
    decreases keys.len(),
{
    assert(keys.push(k).drop_last() == keys);
    if keys.len() == 0 {
        assert(resolved(keys, flat).len() == 0);
    } else {
        lemma_resolve_only_leaves(keys.drop_last(), flat, k);
        lemma_match_index_bounds(flat, keys.last());
        let prev = resolved(keys.drop_last(), flat);
        let i = match_index(flat, keys.last());
        let r = resolved(keys, flat);
        assert forall|p: int| 0 <= p < r.len() implies exists|j: int|
            0 <= j < flat.len() && flat[j].leaf && #[trigger] r[p] == source_path(flat[j]) by {
            if i >= 0 && flat[i].leaf {
                assert(resolved(keys, flat) == prev.push(source_path(flat[i])));
                if p < prev.len() {
                    assert(resolved(keys, flat)[p] == prev[p]);
                    let j = choose|j: int|
                        0 <= j < flat.len() && flat[j].leaf && #[trigger] prev[p] == source_path(
                            flat[j],
                        );
                    assert(resolved(keys, flat)[p] == source_path(flat[j]));
                } else {
                    assert(resolved(keys, flat)[p] == source_path(flat[i]));
                }
            } else {
                assert(resolved(keys, flat) == prev);
                let j = choose|j: int|
                    0 <= j < flat.len() && flat[j].leaf && #[trigger] prev[p] == source_path(
                        flat[j],
                    );
                assert(resolved(keys, flat)[p] == source_path(flat[j]));
            }
        }
    }
}

/// `parent/name` of an entry.
fn key_string(e: &FlatOption) -> (r: String)
    ensures
        r@ == key_of(e@),
{
    proof {
        reveal_strlit("/");
    }
    e.parent.clone().concat("/").concat(e.name.as_str())
}

/// The source paths of the leaf options that `selected` names, in the order
/// of the keys. Each key goes to the first entry of `flat` with that key;
/// a key that names a container, or nothing, is passed over.
pub fn resolve(selected: &Vec<String>, flat: &Vec<FlatOption>) -> (r: Vec<String>)
    ensures
        string_views(r@) == resolved(string_views(selected@), views(flat@)),
{
    let ghost fv = views(flat@);
    let ghost ks = string_views(selected@);
    let mut keys: Vec<String> = Vec::new();
    let mut i: usize = 0;
    while i < flat.len()
        invariant
            i <= flat@.len(),
            fv == views(flat@),
            keys@.len() == i,
            forall|m: int| 0 <= m < i ==> (#[trigger] keys@[m])@ == key_of(fv[m]),
        decreases flat@.len() - i,
    {
        keys.push(key_string(&flat[i]));
        i = i + 1;
    }
    let mut out: Vec<String> = Vec::new();
    let mut s: usize = 0;
    while s < selected.len()
        invariant
            s <= selected@.len(),
            fv == views(flat@),
            ks == string_views(selected@),
            keys@.len() == flat@.len(),
            forall|m: int| 0 <= m < flat@.len() ==> (#[trigger] keys@[m])@ == key_of(fv[m]),
            string_views(out@) == resolved(ks.take(s as int), fv),
        decreases selected@.len() - s,
    {
        let k = &selected[s];
        let mut j: usize = 0;
        while j < keys.len() && keys[j] != *k
            invariant
                j <= keys@.len(),
                keys@.len() == flat@.len(),
                forall|m: int| 0 <= m < flat@.len() ==> (#[trigger] keys@[m])@ == key_of(fv[m]),
                forall|m: int| 0 <= m < j ==> key_of(#[trigger] fv[m]) != k@,
            decreases keys@.len() - j,
        {
            assert(keys@[j as int]@ == key_of(fv[j as int]));
            j = j + 1;
        }
        let ghost before = string_views(out@);
        assert(ks.take(s as int + 1).drop_last() == ks.take(s as int));
        assert(ks.take(s as int + 1).last() == k@);
        if j < keys.len() {
            assert(keys@[j as int]@ == key_of(fv[j as int]));
            proof {
                lemma_match_found(fv, k@, j as int);
            }
            assert(fv[j as int] == flat@[j as int]@);
            if flat[j].leaf {
                proof {
                    reveal_strlit("/");
                }
                let p = flat[j].location.clone().concat("/").concat(flat[j].original_name.as_str());
                assert(p@ == source_path(fv[j as int]));
                out.push(p);
                assert(string_views(out@) =~= before.push(p@));
            }
        } else {
            proof {
                lemma_match_missing(fv, k@);
            }
        }
        s = s + 1;
    }
    assert(ks.take(ks.len() as int) == ks);
    out
}

} // verus!
