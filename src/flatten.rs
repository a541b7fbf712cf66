//! Flattening: every node of the option tree as one entry without children,
//! in a fixed order, with one entry per selection key.

use crate::codec::{kind_rank, RadioCheck};
use crate::order::{group_seq_lt, seq_lt, str_lt};
use crate::tree::InstallerOption;
use vstd::prelude::*;

verus! {

/// What a flattened entry holds.
pub struct FlatView {
    pub name: Seq<char>,
    pub original_name: Seq<char>,
    pub location: Seq<char>,
    pub kind: RadioCheck,
    pub depth: u16,
    pub parent: Seq<char>,
    pub leaf: bool,
}

/// A node of the option tree without its children; `leaf` tells whether it
/// had none.
#[derive(Debug, Clone, PartialEq, Eq)]
pub struct FlatOption {
    /// Display name.
    pub name: String,
    /// Raw on-disk name.
    pub original_name: String,
    /// Source root: raw names of the ancestors joined by `/`.
    pub location: String,
    pub radio_check: RadioCheck,
    pub depth: u16,
    /// Parent key: display names of the ancestors joined by `/`.
    pub parent: String,
    pub leaf: bool,
}

impl View for FlatOption {
    type V = FlatView;

    open spec fn view(&self) -> FlatView {
        FlatView {
            name: self.name@,
            original_name: self.original_name@,
            location: self.location@,
            kind: self.radio_check,
            depth: self.depth,
            parent: self.parent@,
            leaf: self.leaf,
        }
    }
}

/// The entry of one node.
pub open spec fn entry_of(o: InstallerOption) -> FlatView {
    FlatView {
        name: o.name@,
        original_name: o.original_name@,
        location: o.location@,
        kind: o.radio_check,
        depth: o.depth,
        parent: o.parent@,
        leaf: o.children@.len() == 0,
    }
}

/// The entries of a node and of its descendants, depth first.
pub open spec fn node_entries(o: InstallerOption) -> Seq<FlatView>
    decreases o,
{
    seq![entry_of(o)] + forest_entries(o.children@)
}

/// The entries of the trees `os`, one tree after the other.
pub open spec fn forest_entries(os: Seq<InstallerOption>) -> Seq<FlatView>
    decreases os,
{
    if os.len() == 0 {
        Seq::empty()
    } else {
        forest_entries(os.drop_last()) + node_entries(os.last())
    }
}

pub open spec fn views(s: Seq<FlatOption>) -> Seq<FlatView> {
    s.map_values(|f: FlatOption| f@)
}

/// Two entries answer to the same selection key.
pub open spec fn same_key(a: FlatView, b: FlatView) -> bool {
    a.parent == b.parent && a.name == b.name
}

/// The order of flattened entries: by kind, then display name, parent key,
/// raw name, source root, depth, and a container before a leaf.
pub open spec fn entry_lt(a: FlatView, b: FlatView) -> bool {
    if a.kind != b.kind {
        kind_rank(a.kind) < kind_rank(b.kind)
    } else if a.name != b.name {
        seq_lt(a.name, b.name)
    } else if a.parent != b.parent {
        seq_lt(a.parent, b.parent)
    } else if a.original_name != b.original_name {
        seq_lt(a.original_name, b.original_name)
    } else if a.location != b.location {
        seq_lt(a.location, b.location)
    } else if a.depth != b.depth {
        a.depth < b.depth
    } else {
        !a.leaf && b.leaf
    }
}

pub open spec fn strictly_sorted(s: Seq<FlatView>) -> bool {
    forall|i: int, j: int| 0 <= i < j < s.len() ==> entry_lt(#[trigger] s[i], #[trigger] s[j])
}

pub open spec fn unique_keys(s: Seq<FlatView>) -> bool {
    forall|i: int, j: int|
        0 <= i < s.len() && 0 <= j < s.len() && i != j ==> !same_key(#[trigger] s[i], #[trigger] s[j])
}

/// `x` is an entry of `all` and no entry of `all` with its key comes before it.
pub open spec fn kept(all: Seq<FlatView>, x: FlatView) -> bool {
    &&& all.contains(x)
    &&& forall|k: int| 0 <= k < all.len() && same_key(#[trigger] all[k], x) ==> !entry_lt(all[k], x)
}

/// `r` is the flattening of the entries `all`: the first entry of each key,
/// in order.
pub open spec fn is_flattening(r: Seq<FlatView>, all: Seq<FlatView>) -> bool {
    &&& strictly_sorted(r)
    &&& unique_keys(r)
    &&& forall|x: FlatView| #[trigger] r.contains(x) <==> kept(all, x)
}

pub broadcast proof fn lemma_entry_lt_irreflexive(a: FlatView)
    ensures
        !#[trigger] entry_lt(a, a),
{
    broadcast use group_seq_lt;

}

pub broadcast proof fn lemma_entry_lt_transitive(a: FlatView, b: FlatView, c: FlatView)
    requires
        #[trigger] entry_lt(a, b),
        #[trigger] entry_lt(b, c),
    ensures
        entry_lt(a, c),
{
    broadcast use group_seq_lt;

}

pub broadcast proof fn lemma_entry_lt_total(a: FlatView, b: FlatView)
    ensures
        a != b ==> #[trigger] entry_lt(a, b) || entry_lt(b, a),
{
    broadcast use group_seq_lt;

}

pub broadcast group group_entry_lt {
    lemma_entry_lt_irreflexive,
    lemma_entry_lt_transitive,
    lemma_entry_lt_total,
}

/// Membership in the tail of a strictly sorted sequence.
proof fn lemma_tail_members(s: Seq<FlatView>, x: FlatView)
    requires
        strictly_sorted(s),
        s.len() > 0,
    ensures
        s.drop_first().contains(x) <==> (s.contains(x) && x != s[0]),
{
    broadcast use group_entry_lt;

    if s.drop_first().contains(x) {
        let i = choose|i: int| 0 <= i < s.len() - 1 && s.drop_first()[i] == x;
        assert(s[i + 1] == x);
        assert(entry_lt(s[0], s[i + 1]));
    }
    if s.contains(x) && x != s[0] {
        let i = choose|i: int| 0 <= i < s.len() && s[i] == x;
        assert(s.drop_first()[i - 1] == x);
    }
}

/// Two strictly sorted sequences with the same entries are equal.
pub proof fn lemma_sorted_unique(a: Seq<FlatView>, b: Seq<FlatView>)
    requires
        strictly_sorted(a),
        strictly_sorted(b),
        forall|x: FlatView| a.contains(x) <==> b.contains(x),
    ensures
        a == b,
    decreases a.len(),
{
    broadcast use group_entry_lt;

    if a.len() == 0 {
        if b.len() > 0 {
            assert(b.contains(b[0]));
        }
        assert(a =~= b);
    } else {
        assert(a.contains(a[0]));
        if b.len() == 0 {
            assert(false);
        }
        assert(b.contains(b[0]));
        let k = choose|k: int| 0 <= k < b.len() && b[k] == a[0];
        let m = choose|m: int| 0 <= m < a.len() && a[m] == b[0];
        if k > 0 {
            assert(entry_lt(b[0], b[k]));
            if m > 0 {
                assert(entry_lt(a[0], a[m]));
            }
        }
        assert(a[0] == b[0]);
        assert forall|x: FlatView| a.drop_first().contains(x) <==> b.drop_first().contains(x) by {
            lemma_tail_members(a, x);
            lemma_tail_members(b, x);
        }
        lemma_sorted_unique(a.drop_first(), b.drop_first());
        assert(a =~= seq![a[0]] + a.drop_first());
        assert(b =~= seq![b[0]] + b.drop_first());
    }
}

/// Flattening is deterministic: two flattenings of the same trees are the
/// same sequence, and no two of its entries share a selection key.
pub proof fn lemma_flatten_deterministic(
    options: Seq<InstallerOption>,
    first: Seq<FlatView>,
    second: Seq<FlatView>,
)
    requires
        is_flattening(first, forest_entries(options)),
        is_flattening(second, forest_entries(options)),
    ensures
        first == second,
        unique_keys(first),
{
    assert forall|x: FlatView| first.contains(x) <==> second.contains(x) by {
        assert(first.contains(x) <==> kept(forest_entries(options), x));
        assert(second.contains(x) <==> kept(forest_entries(options), x));
    }
    lemma_sorted_unique(first, second);
}

fn rank(k: RadioCheck) -> (r: u8)
    ensures
        r == kind_rank(k),
{
    match k {
        RadioCheck::Radio => 0,
        RadioCheck::RadioChecked => 1,
        RadioCheck::RadioFolder => 2,
        RadioCheck::Checked => 3,
        RadioCheck::Unchecked => 4,
        RadioCheck::Locked => 5,
        RadioCheck::ParentLocked => 6,
    }
}

/// Whether `a` comes strictly before `b` in the flattened order.
pub fn entry_less(a: &FlatOption, b: &FlatOption) -> (r: bool)
    ensures
        r == entry_lt(a@, b@),
{
    let ra = rank(a.radio_check);
    let rb = rank(b.radio_check);
    if ra != rb {
        ra < rb
    } else if a.name != b.name {
        str_lt(a.name.as_str(), b.name.as_str())
    } else if a.parent != b.parent {
        str_lt(a.parent.as_str(), b.parent.as_str())
    } else if a.original_name != b.original_name {
        str_lt(a.original_name.as_str(), b.original_name.as_str())
    } else if a.location != b.location {
        str_lt(a.location.as_str(), b.location.as_str())
    } else if a.depth != b.depth {
        a.depth < b.depth
    } else {
        !a.leaf && b.leaf
    }
}

fn flat_entry(o: &InstallerOption) -> (r: FlatOption)
    ensures
        r@ == entry_of(*o),
{
    FlatOption {
        name: o.name.clone(),
        original_name: o.original_name.clone(),
        location: o.location.clone(),
        radio_check: o.radio_check,
        depth: o.depth,
        parent: o.parent.clone(),
        leaf: o.children.len() == 0,
    }
}

/// Appends the entries of `o` and its descendants, depth first.
fn collect(o: &InstallerOption, out: &mut Vec<FlatOption>)
    ensures
        views(final(out)@) == views(old(out)@) + node_entries(*o),
    decreases o,
{
    let ghost start = views(out@);
    out.push(flat_entry(o));
    assert(views(out@) =~= start + seq![entry_of(*o)]);
    let mut i: usize = 0;
    while i < o.children.len()
        invariant
            i <= o.children@.len(),
            views(out@) == start + seq![entry_of(*o)] + forest_entries(o.children@.take(i as int)),
        decreases o.children@.len() - i,
    {
        let ghost before = views(out@);
        assert(o.children@.take(i as int + 1).drop_last() == o.children@.take(i as int));
        assert(o.children@.take(i as int + 1).last() == o.children@[i as int]);
        collect(&o.children[i], out);
        assert(views(out@) =~= before + node_entries(o.children@[i as int]));
        i = i + 1;
    }
    assert(o.children@.take(o.children@.len() as int) == o.children@);
    assert(views(out@) =~= start + node_entries(*o));
}

/// Some entry of `s` has the key of `x` and is `x` or comes before it.
pub open spec fn represented(s: Seq<FlatView>, x: FlatView) -> bool {
    exists|a: int| 0 <= a < s.len() && same_key(#[trigger] s[a], x) && (s[a] == x || entry_lt(s[a], x))
}

/// Inserts `e` where the order puts it and returns its index.
fn insert_sorted(out: &mut Vec<FlatOption>, e: FlatOption) -> (p: usize)
    requires
        strictly_sorted(views(old(out)@)),
        !views(old(out)@).contains(e@),
    ensures
        p <= old(out)@.len(),
        views(final(out)@) == views(old(out)@).insert(p as int, e@),
        strictly_sorted(views(final(out)@)),
{
    broadcast use group_entry_lt;

    let ghost vo = views(out@);
    let mut lo: usize = 0;
    let mut hi: usize = out.len();
    while lo < hi
        invariant
            lo <= hi <= out@.len(),
            vo == views(out@),
            strictly_sorted(vo),
            !vo.contains(e@),
            forall|a: int| 0 <= a < lo ==> entry_lt(#[trigger] vo[a], e@),
            forall|a: int| hi <= a < vo.len() ==> entry_lt(e@, #[trigger] vo[a]),
        decreases hi - lo,
    {
        let mid = lo + (hi - lo) / 2;
        assert(vo[mid as int] == out@[mid as int]@);
        let below = entry_less(&out[mid], &e);
        assert(below == entry_lt(vo[mid as int], e@));
        if below {
            assert forall|a: int| 0 <= a < mid + 1 implies entry_lt(#[trigger] vo[a], e@) by {
                if a < mid {
                    assert(entry_lt(vo[a], vo[mid as int]));
                    lemma_entry_lt_transitive(vo[a], vo[mid as int], e@);
                }
            }
            lo = mid + 1;
        } else {
            assert(vo[mid as int] != e@) by {
                assert(vo.contains(vo[mid as int]));
            }
            assert forall|a: int| mid <= a < vo.len() implies entry_lt(e@, #[trigger] vo[a]) by {
                lemma_entry_lt_total(vo[mid as int], e@);
                if a > mid {
                    assert(entry_lt(vo[mid as int], vo[a]));
                    lemma_entry_lt_transitive(e@, vo[mid as int], vo[a]);
                }
            }
            hi = mid;
        }
    }
    out.insert(lo, e);
    let ghost vn = views(out@);
    assert(vn =~= vo.insert(lo as int, e@));
    assert forall|i: int, j: int| 0 <= i < j < vn.len() implies entry_lt(
        #[trigger] vn[i],
        #[trigger] vn[j],
    ) by {
        if j < lo {
        } else if j == lo {
        } else if i < lo {
            assert(vn[j] == vo[j - 1]);
        } else if i == lo {
            assert(vn[j] == vo[j - 1]);
        } else {
            assert(vn[i] == vo[i - 1] && vn[j] == vo[j - 1]);
        }
    }
    lo
}

proof fn lemma_present_represented(s: Seq<FlatView>, x: FlatView)
    requires
        s.contains(x),
    ensures
        represented(s, x),
{
    let a = choose|a: int| 0 <= a < s.len() && s[a] == x;
    assert(same_key(s[a], x));
}

/// An entry still present after an insertion at `p`.
proof fn lemma_insert_keeps(s: Seq<FlatView>, p: int, e: FlatView, i: int)
    requires
        0 <= p <= s.len(),
        0 <= i < s.len(),
    ensures
        s.insert(p, e).contains(s[i]),
{
    if i < p {
        assert(s.insert(p, e)[i] == s[i]);
    } else {
        assert(s.insert(p, e)[i + 1] == s[i]);
    }
}

/// Adds `e` to the flattening in progress `out`: it takes the place of the
/// entry with its key if it comes before that entry, is dropped if it comes
/// after it, and is inserted in order if no entry has its key.
fn place(out: &mut Vec<FlatOption>, e: FlatOption)
    requires
        strictly_sorted(views(old(out)@)),
        unique_keys(views(old(out)@)),
    ensures
        strictly_sorted(views(final(out)@)),
        unique_keys(views(final(out)@)),
        forall|x: FlatView|
            #[trigger] views(final(out)@).contains(x) ==> views(old(out)@).contains(x) || x == e@,
        forall|a: int|
            0 <= a < views(old(out)@).len() ==> represented(
                views(final(out)@),
                #[trigger] views(old(out)@)[a],
            ),
        represented(views(final(out)@), e@),
{
    broadcast use group_entry_lt;

    let ghost vo = views(out@);
    let mut j: usize = 0;
    while j < out.len() && !(out[j].parent == e.parent && out[j].name == e.name)
        invariant
            j <= out@.len(),
            vo == views(out@),
            forall|a: int| 0 <= a < j ==> !same_key(#[trigger] vo[a], e@),
        decreases out@.len() - j,
    {
        assert(vo[j as int] == out@[j as int]@);
        j = j + 1;
    }
    if j < out.len() {
        assert(vo[j as int] == out@[j as int]@);
        assert(same_key(vo[j as int], e@));
        let ahead = entry_less(&e, &out[j]);
        if ahead {
            out.remove(j);
            let ghost vm = views(out@);
            assert(vm =~= vo.remove(j as int));
            assert(strictly_sorted(vm)) by {
                assert forall|a: int, b: int| 0 <= a < b < vm.len() implies entry_lt(
                    #[trigger] vm[a],
                    #[trigger] vm[b],
                ) by {
                    if b < j {
                    } else if a < j {
                        assert(vm[b] == vo[b + 1]);
                    } else {
                        assert(vm[a] == vo[a + 1] && vm[b] == vo[b + 1]);
                    }
                }
            }
            assert(forall|a: int| 0 <= a < vm.len() ==> !same_key(#[trigger] vm[a], e@)) by {
                assert forall|a: int| 0 <= a < vm.len() implies !same_key(#[trigger] vm[a], e@) by {
                    if a < j {
                        assert(vm[a] == vo[a]);
                        assert(!same_key(vo[a], vo[j as int]));
                    } else {
                        assert(vm[a] == vo[a + 1]);
                        assert(!same_key(vo[a + 1], vo[j as int]));
                    }
                }
            }
            assert(!vm.contains(e@)) by {
                if vm.contains(e@) {
                    let a = choose|a: int| 0 <= a < vm.len() && vm[a] == e@;
                    assert(same_key(vm[a], e@));
                }
            }
            let p = insert_sorted(out, e);
            let ghost vn = views(out@);
            assert(vn[p as int] == e@);
            assert(unique_keys(vn)) by {
                assert forall|a: int, b: int|
                    0 <= a < vn.len() && 0 <= b < vn.len() && a != b implies !same_key(
                    #[trigger] vn[a],
                    #[trigger] vn[b],
                ) by {
                    let ia = if a < p { a } else { a - 1 };
                    let ib = if b < p { b } else { b - 1 };
                    let oa = if ia < j { ia } else { ia + 1 };
                    let ob = if ib < j { ib } else { ib + 1 };
                    if a != p && b != p {
                        assert(vn[a] == vm[ia] && vn[b] == vm[ib]);
                        assert(vm[ia] == vo[oa] && vm[ib] == vo[ob]);
                    } else if a == p {
                        assert(vn[b] == vm[ib]);
                    } else {
                        assert(vn[a] == vm[ia]);
                    }
                }
            }
            assert forall|x: FlatView| #[trigger] vn.contains(x) implies vo.contains(x) || x == e@ by {
                let k = choose|k: int| 0 <= k < vn.len() && vn[k] == x;
                if k != p {
                    let i = if k < p { k } else { k - 1 };
                    assert(vn[k] == vm[i]);
                    let o = if i < j { i } else { i + 1 };
                    assert(vm[i] == vo[o]);
                }
            }
            assert forall|a: int| 0 <= a < vo.len() implies represented(vn, #[trigger] vo[a]) by {
                if a == j {
                    assert(same_key(vn[p as int], vo[a]));
                } else {
                    let i = if a < j { a } else { a - 1 };
                    assert(vm[i] == vo[a]);
                    lemma_insert_keeps(vm, p as int, e@, i);
                    lemma_present_represented(vn, vo[a]);
                }
            }
            assert(vn.contains(e@));
            proof {
                lemma_present_represented(vn, e@);
            }
        } else {
            proof {
                lemma_entry_lt_total(e@, vo[j as int]);
            }
            assert(represented(vo, e@));
            assert forall|a: int| 0 <= a < vo.len() implies represented(vo, #[trigger] vo[a]) by {
                assert(vo.contains(vo[a]));
                lemma_present_represented(vo, vo[a]);
            }
        }
    } else {
        assert(!vo.contains(e@)) by {
            if vo.contains(e@) {
                let a = choose|a: int| 0 <= a < vo.len() && vo[a] == e@;
                assert(same_key(vo[a], e@));
            }
        }
        let p = insert_sorted(out, e);
        let ghost vn = views(out@);
        assert(vn[p as int] == e@);
        assert(unique_keys(vn)) by {
            assert forall|a: int, b: int|
                0 <= a < vn.len() && 0 <= b < vn.len() && a != b implies !same_key(
                #[trigger] vn[a],
                #[trigger] vn[b],
            ) by {
                let ia = if a < p { a } else { a - 1 };
                let ib = if b < p { b } else { b - 1 };
                if a != p && b != p {
                    assert(vn[a] == vo[ia] && vn[b] == vo[ib]);
                } else if a == p {
                    assert(vn[b] == vo[ib]);
                } else {
                    assert(vn[a] == vo[ia]);
                }
            }
        }
        assert forall|x: FlatView| #[trigger] vn.contains(x) implies vo.contains(x) || x == e@ by {
            let k = choose|k: int| 0 <= k < vn.len() && vn[k] == x;
            if k != p {
                let i = if k < p { k } else { k - 1 };
                assert(vn[k] == vo[i]);
            }
        }
        assert forall|a: int| 0 <= a < vo.len() implies represented(vn, #[trigger] vo[a]) by {
            lemma_insert_keeps(vo, p as int, e@, a);
            lemma_present_represented(vn, vo[a]);
        }
        assert(vn.contains(e@));
        proof {
            lemma_present_represented(vn, e@);
        }
    }
}

proof fn lemma_represented_through(vo: Seq<FlatView>, vn: Seq<FlatView>, x: FlatView)
    requires
        represented(vo, x),
        forall|a: int| 0 <= a < vo.len() ==> represented(vn, #[trigger] vo[a]),
    ensures
        represented(vn, x),
{
    broadcast use group_entry_lt;

    let a = choose|a: int| 0 <= a < vo.len() && same_key(#[trigger] vo[a], x) && (vo[a] == x || entry_lt(vo[a], x));
    assert(represented(vn, vo[a]));
    let b = choose|b: int| 0 <= b < vn.len() && same_key(#[trigger] vn[b], vo[a]) && (vn[b] == vo[a] || entry_lt(vn[b], vo[a]));
    assert(same_key(vn[b], x));
    if vn[b] != vo[a] && vo[a] != x {
        lemma_entry_lt_transitive(vn[b], vo[a], x);
    }
}

/// A sorted sequence of entries of `all` with unique keys that represents
/// every entry of `all` is its flattening.
proof fn lemma_flattening_from_cover(vo: Seq<FlatView>, va: Seq<FlatView>)
    requires
        strictly_sorted(vo),
        unique_keys(vo),
        forall|a: int| 0 <= a < vo.len() ==> va.contains(#[trigger] vo[a]),
        forall|m: int| 0 <= m < va.len() ==> represented(vo, #[trigger] va[m]),
    ensures
        is_flattening(vo, va),
{
    broadcast use group_entry_lt;

    assert forall|x: FlatView| #[trigger] vo.contains(x) implies kept(va, x) by {
        let a = choose|a: int| 0 <= a < vo.len() && vo[a] == x;
        assert(va.contains(vo[a]));
        assert forall|k: int| 0 <= k < va.len() && same_key(#[trigger] va[k], x) implies !entry_lt(
            va[k],
            x,
        ) by {
            assert(represented(vo, va[k]));
            let b = choose|b: int| 0 <= b < vo.len() && same_key(#[trigger] vo[b], va[k]) && (vo[b] == va[k] || entry_lt(vo[b], va[k]));
            if b != a {
                assert(!same_key(vo[b], vo[a]));
            }
        }
    }
    assert forall|x: FlatView| kept(va, x) implies #[trigger] vo.contains(x) by {
        let m = choose|m: int| 0 <= m < va.len() && va[m] == x;
        assert(represented(vo, va[m]));
        let b = choose|b: int| 0 <= b < vo.len() && same_key(#[trigger] vo[b], x) && (vo[b] == x || entry_lt(vo[b], x));
        assert(va.contains(vo[b]));
        let k = choose|k: int| 0 <= k < va.len() && va[k] == vo[b];
        assert(same_key(va[k], x));
        assert(vo[b] == x);
    }
}

/// Every node of the trees `options` once, without children, in the order
/// of `entry_lt`; of the nodes that share a selection key (parent key and
/// display name) only the one that comes first in that order is kept.
pub fn flatten_installer_options(options: &Vec<InstallerOption>) -> (r: Vec<FlatOption>)
    ensures
        is_flattening(views(r@), forest_entries(options@)),
{
    let mut all: Vec<FlatOption> = Vec::new();
    let mut i: usize = 0;
    while i < options.len()
        invariant
            i <= options@.len(),
            views(all@) == forest_entries(options@.take(i as int)),
        decreases options@.len() - i,
    {
        assert(options@.take(i as int + 1).drop_last() == options@.take(i as int));
        assert(options@.take(i as int + 1).last() == options@[i as int]);
        collect(&options[i], &mut all);
        i = i + 1;
    }
    assert(options@.take(options@.len() as int) == options@);
    let ghost va = views(all@);
    let mut out: Vec<FlatOption> = Vec::new();
    assert(views(out@) =~= Seq::<FlatView>::empty());
    while all.len() > 0
        invariant
            all@.len() <= va.len(),
            views(all@) == va.take(all@.len() as int),
            strictly_sorted(views(out@)),
            unique_keys(views(out@)),
            forall|a: int|
                0 <= a < views(out@).len() ==> exists|m: int|
                    all@.len() <= m < va.len() && va[m] == #[trigger] views(out@)[a],
            forall|m: int| all@.len() <= m < va.len() ==> represented(views(out@), #[trigger] va[m]),
        decreases all@.len(),
    {
        let ghost n = all@.len() as int;
        let ghost vo = views(out@);
        let e = all.pop().unwrap();
        assert(e@ == va[n - 1]) by {
            assert(va.take(n)[n - 1] == va[n - 1]);
        }
        assert(views(all@) =~= va.take(n - 1));
        place(&mut out, e);
        let ghost vn = views(out@);
        assert forall|a: int| 0 <= a < vn.len() implies exists|m: int|
            n - 1 <= m < va.len() && va[m] == #[trigger] vn[a] by {
            assert(vn.contains(vn[a]));
            if vn[a] != e@ {
                assert(vo.contains(vn[a]));
                let b = choose|b: int| 0 <= b < vo.len() && vo[b] == vn[a];
                assert(exists|m: int| n <= m < va.len() && va[m] == vo[b]);
            }
        }
        assert forall|m: int| n - 1 <= m < va.len() implies represented(vn, #[trigger] va[m]) by {
            if m >= n {
                lemma_represented_through(vo, vn, va[m]);
            }
        }
    }
    proof {
        let vo = views(out@);
        assert forall|a: int| 0 <= a < vo.len() implies va.contains(#[trigger] vo[a]) by {
            let m = choose|m: int| 0 <= m < va.len() && va[m] == vo[a];
        }
        lemma_flattening_from_cover(vo, va);
    }
    out
}

} // verus!
