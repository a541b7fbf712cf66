//! The asset listing, and which assets a documentation or image request
//! for a folder reads.

use crate::order::{group_seq_lt, seq_lt, str_lt};
use crate::resolve::string_views;
use crate::text::{chars_of, contains_str, has_substring, matches_at, occurs_at, string_of, string_of_range};
use vstd::prelude::*;

verus! {

/// What `percent_encoding` decodes a request name to.
pub uninterp spec fn percent_decoded(s: Seq<char>) -> Seq<char>;

/// Relies on `percent_encoding::percent_decode_str` followed by
/// `PercentDecode::decode_utf8_lossy`: the result depends on the input
/// alone, and a name without `%` comes back unchanged.
#[verifier::external_body]
fn percent_decode(s: &str) -> (r: String)
    ensures
        r@ == percent_decoded(s@),
        !s@.contains('%') ==> r@ == s@,
{
    percent_encoding::percent_decode_str(s).decode_utf8_lossy().to_string()
}

/// Prefix that listing paths carry and store keys do not.
pub const LISTING_ROOT: &'static str = "installation/";

/// `s` with every occurrence of `pat` removed, leftmost first.
pub open spec fn removed_all(s: Seq<char>, pat: Seq<char>) -> Seq<char>
    decreases s.len(),
{
    if pat.len() == 0 || s.len() < pat.len() {
        s
    } else if s.take(pat.len() as int) == pat {
        removed_all(s.skip(pat.len() as int), pat)
    } else {
        seq![s[0]] + removed_all(s.drop_first(), pat)
    }
}

/// Greatest index at most `i` where `p` occurs in `s`, or -1.
pub open spec fn last_at_or_before(s: Seq<char>, p: Seq<char>, i: int) -> int
    decreases i + 1,
{
    if i < 0 {
        -1
    } else if occurs_at(s, p, i) {
        i
    } else {
        last_at_or_before(s, p, i - 1)
    }
}

/// Index of the last occurrence of `p` in `s`, or -1.
pub open spec fn last_occurrence(s: Seq<char>, p: Seq<char>) -> int {
    last_at_or_before(s, p, s.len() - p.len())
}

/// Number of backslashes in `s`.
pub open spec fn backslashes(s: Seq<char>) -> nat
    decreases s.len(),
{
    if s.len() == 0 {
        0
    } else {
        backslashes(s.drop_last()) + if s.last() == '\\' {
            1nat
        } else {
            0nat
        }
    }
}

/// `s` with every backslash turned into `/`.
pub open spec fn forward_slashes(s: Seq<char>) -> Seq<char> {
    s.map_values(|c: char| if c == '\\' { '/' } else { c })
}

pub open spec fn is_image(f: Seq<char>) -> bool {
    has_substring(f, ".jpg"@) || has_substring(f, ".png"@)
}

pub open spec fn is_doc(f: Seq<char>) -> bool {
    has_substring(f, ".txt"@)
}

/// The request is about the root option itself.
pub open spec fn is_overview(folder: Seq<char>) -> bool {
    folder == "installation"@ || folder == "/Network Addon Mod"@
}

/// `f` lies in `folder` or one level below it, counting `\` separators
/// after the last place `folder` occurs.
pub open spec fn near(f: Seq<char>, folder: Seq<char>) -> bool {
    has_substring(f, folder) && backslashes(f.skip(last_occurrence(f, folder))) < 2
}

/// The store key of a listing path.
pub open spec fn store_key(f: Seq<char>) -> Seq<char> {
    forward_slashes(removed_all(f, LISTING_ROOT@))
}

/// The store keys of the listed paths near `folder` that contain `marker`.
pub open spec fn request_files(list: Seq<Seq<char>>, folder: Seq<char>, marker: Seq<char>) -> Seq<
    Seq<char>,
>
    decreases list.len(),
{
    if list.len() == 0 {
        Seq::empty()
    } else {
        let p = request_files(list.drop_last(), folder, marker);
        let f = list.last();
        if near(f, folder) && has_substring(f, marker) {
            p.push(store_key(f))
        } else {
            p
        }
    }
}

/// The paths of the installation bundle, as listed.
#[derive(Debug, Clone, PartialEq, Eq)]
pub struct InstallAssetList {
    pub list: Vec<String>,
}

/// What a request for a folder's documentation or image reads.
#[derive(Debug, Clone, PartialEq, Eq)]
pub enum AssetRequest {
    /// The root's own document or image.
    Overview,
    /// These store keys, in listing order.
    Files(Vec<String>),
}

/// `s` with every occurrence of `pat` removed.
pub fn remove_all(s: &str, pat: &str) -> (r: String)
    ensures
        r@ == removed_all(s@, pat@),
{
    let cs = chars_of(s);
    let ps = chars_of(pat);
    let n = cs.len();
    let m = ps.len();
    if m == 0 {
        return string_of(&cs);
    }
    let mut out: Vec<char> = Vec::new();
    let mut i: usize = 0;
    assert(cs@.skip(0) == cs@);
    while i < n
        invariant
            cs@ == s@,
            ps@ == pat@,
            n == cs@.len(),
            m == ps@.len(),
            m > 0,
            i <= n,
            out@ + removed_all(cs@.skip(i as int), pat@) == removed_all(s@, pat@),
        decreases n - i,
    {
        let ghost rest = cs@.skip(i as int);
        if m <= n - i && matches_at(&cs, &ps, i) {
            assert(rest.take(m as int) == cs@.subrange(i as int, i + m));
            assert(rest.skip(m as int) == cs@.skip(i + m));
            i = i + m;
        } else if m <= n - i {
            assert(rest.take(m as int) == cs@.subrange(i as int, i + m));
            assert(rest.drop_first() == cs@.skip(i + 1));
            let ghost before = out@;
            out.push(cs[i]);
            assert(out@ + removed_all(cs@.skip(i + 1), pat@) =~= before + removed_all(rest, pat@));
            i = i + 1;
        } else {
            assert(removed_all(rest, pat@) == rest);
            let ghost before = out@;
            while i < n
                invariant
                    i <= n,
                    n == cs@.len(),
                    out@ + cs@.skip(i as int) == before + rest,
                decreases n - i,
            {
                let ghost o = out@;
                out.push(cs[i]);
                assert(out@ + cs@.skip(i + 1) =~= o + cs@.skip(i as int));
                i = i + 1;
            }
            assert(cs@.skip(n as int) =~= Seq::<char>::empty());
            assert(removed_all(cs@.skip(n as int), pat@) =~= Seq::<char>::empty());
            assert(out@ + removed_all(cs@.skip(i as int), pat@) =~= before + removed_all(rest, pat@));
        }
    }
    assert(cs@.skip(n as int) =~= Seq::<char>::empty());
    assert(out@ + removed_all(cs@.skip(n as int), pat@) =~= out@);
    string_of(&out)
}

/// Index of the last occurrence of `p` in `cs`, if any.
fn find_last(cs: &Vec<char>, p: &Vec<char>) -> (r: Option<usize>)
    ensures
        r is None ==> last_occurrence(cs@, p@) == -1,
        r is Some ==> last_occurrence(cs@, p@) == r->0 as int,
{
    if p.len() > cs.len() {
        return None;
    }
    let mut i: usize = cs.len() - p.len();
    loop
        invariant
            p@.len() <= cs@.len(),
            i <= cs@.len() - p@.len(),
            last_occurrence(cs@, p@) == last_at_or_before(cs@, p@, i as int),
        decreases i,
    {
        if matches_at(cs, p, i) {
            return Some(i);
        }
        assert(!occurs_at(cs@, p@, i as int));
        if i == 0 {
            assert(last_at_or_before(cs@, p@, -1) == -1);
            return None;
        }
        i = i - 1;
    }
}

/// Number of backslashes in `cs[from..]`.
fn count_backslashes(cs: &Vec<char>, from: usize) -> (r: usize)
    requires
        from <= cs@.len(),
    ensures
        r == backslashes(cs@.skip(from as int)),
{
    let mut k: usize = 0;
    let mut i: usize = from;
    assert(cs@.subrange(from as int, from as int) =~= Seq::<char>::empty());
    while i < cs.len()
        invariant
            from <= i <= cs@.len(),
            k <= i - from,
            k == backslashes(cs@.subrange(from as int, i as int)),
        decreases cs@.len() - i,
    {
        assert(cs@.subrange(from as int, i + 1).drop_last() == cs@.subrange(from as int, i as int));
        if cs[i] == '\\' {
            k = k + 1;
        }
        i = i + 1;
    }
    assert(cs@.subrange(from as int, cs@.len() as int) == cs@.skip(from as int));
    k
}

/// `s` with every backslash turned into `/`.
fn to_forward_slashes(s: &str) -> (r: String)
    ensures
        r@ == forward_slashes(s@),
{
    let cs = chars_of(s);
    let mut out: Vec<char> = Vec::new();
    let mut i: usize = 0;
    while i < cs.len()
        invariant
            cs@ == s@,
            i <= cs@.len(),
            out@ == forward_slashes(cs@.take(i as int)),
        decreases cs@.len() - i,
    {
        let c = cs[i];
        out.push(if c == '\\' { '/' } else { c });
        i = i + 1;
        assert(out@ =~= forward_slashes(cs@.take(i as int)));
    }
    assert(cs@.take(cs@.len() as int) == cs@);
    string_of(&out)
}

impl InstallAssetList {
    /// The listed paths.
    pub fn to_vec(self) -> (r: Vec<String>)
        ensures
            r@ == self.list@,
    {
        self.list
    }

    /// The listed images: paths containing `.jpg` or `.png`.
    pub fn filter_images(self) -> (r: InstallAssetList)
        ensures
            string_views(r.list@) == string_views(self.list@).filter(|f: Seq<char>| is_image(f)),
    {
        let ghost all = string_views(self.list@);
        let mut kept: Vec<String> = Vec::new();
        let mut i: usize = 0;
        while i < self.list.len()
            invariant
                i <= self.list@.len(),
                all == string_views(self.list@),
                string_views(kept@) == all.take(i as int).filter(|f: Seq<char>| is_image(f)),
            decreases self.list@.len() - i,
        {
            let f = &self.list[i];
            assert(all.take(i as int + 1) == all.take(i as int).push(f@));
            proof {
                all.take(i as int).lemma_filter_push(f@, |f: Seq<char>| is_image(f));
            }
            let ghost before = string_views(kept@);
            if contains_str(f.as_str(), ".jpg") || contains_str(f.as_str(), ".png") {
                kept.push(f.clone());
                assert(string_views(kept@) =~= before.push(f@));
            }
            i = i + 1;
        }
        assert(all.take(all.len() as int) == all);
        InstallAssetList { list: kept }
    }

    /// The listed documents: paths containing `.txt`.
    pub fn filter_docs(self) -> (r: InstallAssetList)
        ensures
            string_views(r.list@) == string_views(self.list@).filter(|f: Seq<char>| is_doc(f)),
    {
        let ghost all = string_views(self.list@);
        let mut kept: Vec<String> = Vec::new();
        let mut i: usize = 0;
        while i < self.list.len()
            invariant
                i <= self.list@.len(),
                all == string_views(self.list@),
                string_views(kept@) == all.take(i as int).filter(|f: Seq<char>| is_doc(f)),
            decreases self.list@.len() - i,
        {
            let f = &self.list[i];
            assert(all.take(i as int + 1) == all.take(i as int).push(f@));
            proof {
                all.take(i as int).lemma_filter_push(f@, |f: Seq<char>| is_doc(f));
            }
            let ghost before = string_views(kept@);
            if contains_str(f.as_str(), ".txt") {
                kept.push(f.clone());
                assert(string_views(kept@) =~= before.push(f@));
            }
            i = i + 1;
        }
        assert(all.take(all.len() as int) == all);
        InstallAssetList { list: kept }
    }
}

/// What a request whose decoded name is `name` reads: the root's own asset
/// for the root, else the store keys of the listed paths near the requested
/// folder that contain `marker`. `None` stands for the root's asset.
pub open spec fn decoded_request_of(name: Seq<char>, list: Seq<Seq<char>>, marker: Seq<char>) -> Option<
    Seq<Seq<char>>,
> {
    let folder = removed_all(name, LISTING_ROOT@);
    if is_overview(folder) {
        None
    } else {
        Some(request_files(list, folder, marker))
    }
}

/// What a request named `file_name` (percent-encoded) reads.
pub open spec fn request_of(file_name: Seq<char>, list: Seq<Seq<char>>, marker: Seq<char>) -> Option<
    Seq<Seq<char>>,
> {
    decoded_request_of(percent_decoded(file_name), list, marker)
}

/// What a request reads, given its name already percent-decoded: the root's
/// own asset when the folder is the root, else the store keys of the listed
/// paths near the folder that contain `marker`, in listing order.
pub fn decoded_request(name: &str, assets: &InstallAssetList, marker: &str) -> (r: AssetRequest)
    ensures
        decoded_request_of(name@, string_views(assets.list@), marker@) matches Some(fs) ==> (r matches AssetRequest::Files(v) && string_views(v@) == fs),
        decoded_request_of(name@, string_views(assets.list@), marker@) is None ==> r == AssetRequest::Overview,
{
    let folder = remove_all(name, LISTING_ROOT);
    proof {
        reveal_strlit("installation");
        reveal_strlit("/Network Addon Mod");
    }
    if folder == String::from_str("installation") || folder == String::from_str("/Network Addon Mod") {
        return AssetRequest::Overview;
    }
    let fc = chars_of(folder.as_str());
    let ghost all = string_views(assets.list@);
    let mut files: Vec<String> = Vec::new();
    let mut i: usize = 0;
    while i < assets.list.len()
        invariant
            i <= assets.list@.len(),
            all == string_views(assets.list@),
            fc@ == folder@,
            folder@ == removed_all(name@, LISTING_ROOT@),
            string_views(files@) == request_files(all.take(i as int), folder@, marker@),
        decreases assets.list@.len() - i,
    {
        let f = &assets.list[i];
        assert(all.take(i as int + 1).drop_last() == all.take(i as int));
        assert(all.take(i as int + 1).last() == f@);
        let ghost before = string_views(files@);
        if contains_str(f.as_str(), folder.as_str()) && contains_str(f.as_str(), marker) {
            let cs = chars_of(f.as_str());
            match find_last(&cs, &fc) {
                Some(at) => {
                    proof {
                        lemma_last_at_or_before_bounds(cs@, fc@, cs@.len() - fc@.len());
                    }
                    if count_backslashes(&cs, at) < 2 {
                        let key = to_forward_slashes(remove_all(f.as_str(), LISTING_ROOT).as_str());
                        files.push(key);
                        assert(string_views(files@) =~= before.push(key@));
                    }
                },
                None => {
                    proof {
                        lemma_found_when_present(cs@, fc@);
                    }
                },
            }
        }
        i = i + 1;
    }
    assert(all.take(all.len() as int) == all);
    AssetRequest::Files(files)
}

proof fn lemma_last_at_or_before_bounds(s: Seq<char>, p: Seq<char>, i: int)
    ensures
        -1 <= last_at_or_before(s, p, i),
        last_at_or_before(s, p, i) >= 0 ==> last_at_or_before(s, p, i) <= i,
        last_at_or_before(s, p, i) >= 0 ==> occurs_at(s, p, last_at_or_before(s, p, i)),
    decreases i + 1,
{
    if i >= 0 && !occurs_at(s, p, i) {
        lemma_last_at_or_before_bounds(s, p, i - 1);
    }
}

/// Where `p` occurs in `s`, its last occurrence is found.
proof fn lemma_found_when_present(s: Seq<char>, p: Seq<char>)
    requires
        has_substring(s, p),
    ensures
        last_occurrence(s, p) >= 0,
{
    let j = choose|j: int| occurs_at(s, p, j);
    lemma_found_at_or_after(s, p, s.len() - p.len(), j);
}

proof fn lemma_found_at_or_after(s: Seq<char>, p: Seq<char>, i: int, j: int)
    requires
        occurs_at(s, p, j),
        j <= i,
    ensures
        last_at_or_before(s, p, i) >= j,
    decreases i + 1,
{
    if i >= 0 && !occurs_at(s, p, i) {
        lemma_found_at_or_after(s, p, i - 1, j);
    }
}

/// The documents a request named `file_name` reads.
pub fn doc_request(file_name: &str, assets: &InstallAssetList) -> (r: AssetRequest)
    ensures
        request_of(file_name@, string_views(assets.list@), "txt"@) matches Some(fs) ==> (r matches AssetRequest::Files(v) && string_views(v@) == fs),
        request_of(file_name@, string_views(assets.list@), "txt"@) is None ==> r == AssetRequest::Overview,
{
    let name = percent_decode(file_name);
    decoded_request(name.as_str(), assets, "txt")
}

/// The images a request named `file_name` reads.
pub fn image_request(file_name: &str, assets: &InstallAssetList) -> (r: AssetRequest)
    ensures
        request_of(file_name@, string_views(assets.list@), "png"@) matches Some(fs) ==> (r matches AssetRequest::Files(v) && string_views(v@) == fs),
        request_of(file_name@, string_views(assets.list@), "png"@) is None ==> r == AssetRequest::Overview,
{
    let name = percent_decode(file_name);
    decoded_request(name.as_str(), assets, "png")
}

/// What `std::path::Path::file_name` gives for a path: its final
/// component, if there is one.
pub uninterp spec fn file_name_component(s: Seq<char>) -> Option<Seq<char>>;

/// Relies on `std::path::Path::file_name`: the final component of the path
/// (`None` for a path that ends in `..` or is a root); the result depends on
/// the path alone.
#[verifier::external_body]
fn path_file_name(s: &str) -> (r: Option<String>)
    ensures
        r is None <==> file_name_component(s@) is None,
        r is Some ==> file_name_component(s@) == Some(r->0@),
{
    std::path::Path::new(s).file_name().map(|n| n.to_string_lossy().to_string())
}

/// The folder part of a listed path whose final component is `name`: the
/// path with that component removed wherever it occurs; empty when the
/// path has no final component.
pub open spec fn part_with(s: Seq<char>, name: Option<Seq<char>>) -> Seq<char> {
    match name {
        Some(n) => removed_all(s, n),
        None => Seq::empty(),
    }
}

pub open spec fn option_view(o: Option<String>) -> Option<Seq<char>> {
    match o {
        Some(s) => Some(s@),
        None => None,
    }
}

pub open spec fn strictly_ascending(s: Seq<Seq<char>>) -> bool {
    forall|i: int, j: int| 0 <= i < j < s.len() ==> seq_lt(#[trigger] s[i], #[trigger] s[j])
}

/// The non-empty entries of `s`, in order.
pub open spec fn non_empty(s: Seq<Seq<char>>) -> Seq<Seq<char>> {
    s.filter(|x: Seq<char>| x.len() > 0)
}

/// `x` is the folder part of one of `paths`, whose final components are
/// `names`.
pub open spec fn is_part_of(paths: Seq<Seq<char>>, names: Seq<Option<Seq<char>>>, x: Seq<char>) -> bool {
    exists|i: int| 0 <= i < paths.len() && #[trigger] part_with(paths[i], names[i]) == x
}

/// `r` is the non-empty folder parts of `paths` (with final components
/// `names`), ascending and without repeats, followed by the non-empty paths
/// in their order.
pub open spec fn folders_then_paths_of(
    r: Seq<Seq<char>>,
    paths: Seq<Seq<char>>,
    names: Seq<Option<Seq<char>>>,
) -> bool {
    exists|k: int|
        0 <= k <= r.len() && strictly_ascending(#[trigger] r.take(k)) && r.skip(k) == non_empty(paths)
            && forall|x: Seq<char>|
            #[trigger] r.take(k).contains(x) <==> (x.len() > 0 && is_part_of(paths, names, x))
}

/// Inserts `x` into the ascending `out` unless it is there already.
fn insert_unique(out: &mut Vec<String>, x: String)
    requires
        strictly_ascending(string_views(old(out)@)),
    ensures
        strictly_ascending(string_views(final(out)@)),
        forall|y: Seq<char>|
            #[trigger] string_views(final(out)@).contains(y) <==> (string_views(old(out)@).contains(y)
                || y == x@),
{
    broadcast use group_seq_lt;

    let ghost vo = string_views(out@);
    let mut lo: usize = 0;
    let mut hi: usize = out.len();
    while lo < hi
        invariant
            lo <= hi <= out@.len(),
            vo == string_views(out@),
            strictly_ascending(vo),
            forall|a: int| 0 <= a < lo ==> seq_lt(#[trigger] vo[a], x@),
            forall|a: int| hi <= a < vo.len() ==> !seq_lt(#[trigger] vo[a], x@),
        decreases hi - lo,
    {
        let mid = lo + (hi - lo) / 2;
        assert(vo[mid as int] == out@[mid as int]@);
        let below = str_lt(out[mid].as_str(), x.as_str());
        assert(below == seq_lt(vo[mid as int], x@));
        if below {
            assert forall|a: int| 0 <= a < mid + 1 implies seq_lt(#[trigger] vo[a], x@) by {
                if a < mid {
                    assert(seq_lt(vo[a], vo[mid as int]));
                    crate::order::lemma_seq_lt_transitive(vo[a], vo[mid as int], x@);
                }
            }
            lo = mid + 1;
        } else {
            assert forall|a: int| mid <= a < vo.len() implies !seq_lt(#[trigger] vo[a], x@) by {
                if a > mid {
                    assert(seq_lt(vo[mid as int], vo[a]));
                    if seq_lt(vo[a], x@) {
                        crate::order::lemma_seq_lt_transitive(vo[mid as int], vo[a], x@);
                    }
                }
            }
            hi = mid;
        }
    }
    if lo < out.len() && out[lo] == x {
        assert(vo[lo as int] == x@);
        return;
    }
    assert(!vo.contains(x@)) by {
        if vo.contains(x@) {
            let a = choose|a: int| 0 <= a < vo.len() && vo[a] == x@;
            if a > lo {
                assert(seq_lt(vo[lo as int], vo[a]));
            }
        }
    }
    let ghost xv = x@;
    out.insert(lo, x);
    let ghost vn = string_views(out@);
    assert(vn =~= vo.insert(lo as int, xv));
    assert forall|i: int, j: int| 0 <= i < j < vn.len() implies seq_lt(
        #[trigger] vn[i],
        #[trigger] vn[j],
    ) by {
        if j < lo {
        } else if j == lo {
        } else if i < lo {
            assert(vn[j] == vo[j - 1]);
            assert(seq_lt(xv, vo[j - 1]) || vo[j - 1] == xv);
            crate::order::lemma_seq_lt_transitive(vn[i], xv, vn[j]);
        } else if i == lo {
            assert(vn[j] == vo[j - 1]);
            assert(vo[j - 1] != xv) by {
                assert(vo.contains(vo[j - 1]));
            }
            if j - 1 > lo {
                assert(seq_lt(vo[lo as int], vo[j - 1]));
            }
        } else {
            assert(vn[i] == vo[i - 1] && vn[j] == vo[j - 1]);
        }
    }
    assert forall|y: Seq<char>| #[trigger] vn.contains(y) <==> (vo.contains(y) || y == xv) by {
        if vn.contains(y) {
            let k = choose|k: int| 0 <= k < vn.len() && vn[k] == y;
            if k < lo {
                assert(vo[k] == y);
            } else if k > lo {
                assert(vo[k - 1] == y);
            }
        }
        if vo.contains(y) {
            let k = choose|k: int| 0 <= k < vo.len() && vo[k] == y;
            if k < lo {
                assert(vn[k] == y);
            } else {
                assert(vn[k + 1] == y);
            }
        }
        if y == xv {
            assert(vn[lo as int] == y);
        }
    }
}

/// The folders of the listed paths followed by the paths themselves, given
/// the final component of each path (`names[i]` for `strs[i]`): the
/// non-empty folder parts, ascending and without repeats, then the
/// non-empty paths in their order. `strs` is left empty.
pub fn folders_then_paths(strs: &mut Vec<String>, names: &Vec<Option<String>>) -> (r: Vec<String>)
    requires
        old(strs)@.len() == names@.len(),
    ensures
        final(strs)@.len() == 0,
        folders_then_paths_of(
            string_views(r@),
            string_views(old(strs)@),
            names@.map_values(|o: Option<String>| option_view(o)),
        ),
{
    let ghost paths = string_views(strs@);
    let ghost nv = names@.map_values(|o: Option<String>| option_view(o));
    let mut folders: Vec<String> = Vec::new();
    let mut i: usize = 0;
    while i < strs.len()
        invariant
            i <= strs@.len(),
            paths == string_views(strs@),
            strs@.len() == names@.len(),
            nv == names@.map_values(|o: Option<String>| option_view(o)),
            strictly_ascending(string_views(folders@)),
            forall|x: Seq<char>|
                #[trigger] string_views(folders@).contains(x) <==> (x.len() > 0 && exists|m: int|
                    0 <= m < i && #[trigger] part_with(paths[m], nv[m]) == x),
        decreases strs@.len() - i,
    {
        let ghost before = string_views(folders@);
        let part = match &names[i] {
            Some(name) => remove_all(strs[i].as_str(), name.as_str()),
            None => String::new(),
        };
        assert(part@ == part_with(paths[i as int], nv[i as int]));
        if !part.as_str().is_empty() {
            insert_unique(&mut folders, part);
        }
        assert forall|x: Seq<char>| #[trigger] string_views(folders@).contains(x) <==> (x.len() > 0
            && exists|m: int| 0 <= m < i + 1 && #[trigger] part_with(paths[m], nv[m]) == x) by {
            if x.len() > 0 && exists|m: int| 0 <= m < i + 1 && #[trigger] part_with(paths[m], nv[m]) == x {
                let m = choose|m: int| 0 <= m < i + 1 && #[trigger] part_with(paths[m], nv[m]) == x;
                if m < i {
                    assert(before.contains(x));
                }
            }
            if before.contains(x) {
                let m = choose|m: int| 0 <= m < i && #[trigger] part_with(paths[m], nv[m]) == x;
                assert(0 <= m < i + 1 && part_with(paths[m], nv[m]) == x);
            }
        }
        i = i + 1;
    }
    let k = folders.len();
    let mut rest: Vec<String> = Vec::new();
    rest.append(strs);
    assert(string_views(rest@) == paths);
    let mut out = folders;
    let mut j: usize = 0;
    let ghost head = string_views(out@);
    assert(string_views(out@).skip(k as int) =~= paths.take(0).filter(|x: Seq<char>| x.len() > 0));
    while j < rest.len()
        invariant
            j <= rest@.len(),
            k <= out@.len(),
            string_views(rest@) == paths,
            string_views(out@).take(k as int) == head,
            string_views(out@).skip(k as int) == paths.take(j as int).filter(|x: Seq<char>| x.len() > 0),
        decreases rest@.len() - j,
    {
        assert(paths.take(j as int + 1) == paths.take(j as int).push(paths[j as int]));
        proof {
            paths.take(j as int).lemma_filter_push(paths[j as int], |x: Seq<char>| x.len() > 0);
        }
        let ghost o = string_views(out@);
        if !rest[j].as_str().is_empty() {
            out.push(rest[j].clone());
            assert(string_views(out@) =~= o.push(rest@[j as int]@));
            assert(string_views(out@).take(k as int) =~= o.take(k as int));
            assert(string_views(out@).skip(k as int) =~= o.skip(k as int).push(paths[j as int]));
        }
        j = j + 1;
    }
    assert(paths.take(paths.len() as int) == paths);
    assert forall|x: Seq<char>| #[trigger] string_views(out@).take(k as int).contains(x) <==> (x.len() > 0 && is_part_of(paths, nv, x)) by {
        if x.len() > 0 && is_part_of(paths, nv, x) {
            let m = choose|m: int| 0 <= m < paths.len() && #[trigger] part_with(paths[m], nv[m]) == x;
        }
    }
    assert(strictly_ascending(string_views(out@).take(k as int)));
    out
}

/// The folders of the listed paths followed by the paths themselves: the
/// non-empty folder parts of `strs`, ascending and without repeats, then
/// the non-empty paths of `strs` in their order. `strs` is left empty.
pub fn calculate_folders(strs: &mut Vec<String>) -> (r: Vec<String>)
    ensures
        final(strs)@.len() == 0,
        folders_then_paths_of(
            string_views(r@),
            string_views(old(strs)@),
            string_views(old(strs)@).map_values(|p: Seq<char>| file_name_component(p)),
        ),
{
    let ghost paths = string_views(strs@);
    let mut names: Vec<Option<String>> = Vec::new();
    let mut i: usize = 0;
    while i < strs.len()
        invariant
            i <= strs@.len(),
            names@.len() == i,
            forall|m: int| 0 <= m < i ==> option_view(#[trigger] names@[m]) == file_name_component(strs@[m]@),
        decreases strs@.len() - i,
    {
        let name = path_file_name(strs[i].as_str());
        names.push(name);
        i = i + 1;
    }
    assert(names@.map_values(|o: Option<String>| option_view(o)) =~= paths.map_values(
        |p: Seq<char>| file_name_component(p),
    ));
    folders_then_paths(strs, &names)
}

} // verus!
