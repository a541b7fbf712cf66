//! The option tree: one node per source directory, with its decoded kind,
//! its display name, and the keys that lead back to it and to its assets.

use crate::codec::{kind_of, prettify_folder_name, sanitized, RadioCheck};
use vstd::prelude::*;

verus! {

/// A directory of the source snapshot: its raw on-disk name and, when its
/// listing could be read, its subdirectories in listing order.
#[derive(Debug, PartialEq, Eq)]
pub struct SourceDir {
    pub name: String,
    pub subdirs: Option<Vec<SourceDir>>,
}

/// One selectable unit of the installation.
#[derive(Debug, PartialEq, Eq)]
pub struct InstallerOption {
    /// Display name: the raw name with its sentinel tokens removed.
    pub name: String,
    /// Raw on-disk name, sentinels intact.
    pub original_name: String,
    /// Raw names of the ancestors, joined by `/` (the source root).
    pub location: String,
    pub radio_check: RadioCheck,
    pub children: Vec<InstallerOption>,
    /// Distance from the root.
    pub depth: u16,
    /// Display names of the ancestors, joined by `/` (the parent key).
    pub parent: String,
}

/// Raw and display name of the root node.
pub const ROOT_NAME: &'static str = "Network Addon Mod";

/// Parent key of the nodes right under the root.
pub const TOP_KEY: &'static str = "top";

/// Source root of the nodes right under the root.
pub const SOURCE_ROOT: &'static str = "installation";

/// `a/b`.
pub open spec fn joined(a: Seq<char>, b: Seq<char>) -> Seq<char> {
    a + seq!['/'] + b
}

/// Greatest nesting of the directories in `ds`.
pub open spec fn forest_height(ds: Seq<SourceDir>) -> nat
    decreases ds,
{
    if ds.len() == 0 {
        0
    } else {
        let a = forest_height(ds.drop_last());
        let b = dir_height(ds.last());
        if a >= b {
            a
        } else {
            b
        }
    }
}

/// Nesting of `d`: 1, plus that of its subdirectories when they were read.
pub open spec fn dir_height(d: SourceDir) -> nat
    decreases d,
{
    match d.subdirs {
        Some(v) => 1 + forest_height(v@),
        None => 1,
    }
}

/// `o` is the node built for directory `d` at `depth`, under the parent key
/// `pk` and the source root `sr`. A directory whose listing could not be
/// read has no node.
pub open spec fn node_mirrors(
    o: InstallerOption,
    d: SourceDir,
    depth: int,
    pk: Seq<char>,
    sr: Seq<char>,
) -> bool
    decreases d,
{
    &&& o.original_name@ == d.name@
    &&& o.name@ == sanitized(d.name@)
    &&& o.radio_check == kind_of(d.name@)
    &&& o.depth == depth
    &&& o.parent@ == pk
    &&& o.location@ == sr
    &&& match d.subdirs {
        Some(v) => forest_mirrors(
            o.children@,
            v@,
            depth + 1,
            joined(pk, sanitized(d.name@)),
            joined(sr, d.name@),
        ),
        None => false,
    }
}

/// `os` are the nodes built, in order, for the readable directories of `ds`.
pub open spec fn forest_mirrors(
    os: Seq<InstallerOption>,
    ds: Seq<SourceDir>,
    depth: int,
    pk: Seq<char>,
    sr: Seq<char>,
) -> bool
    decreases ds,
{
    if ds.len() == 0 {
        os.len() == 0
    } else if ds.last().subdirs is None {
        forest_mirrors(os, ds.drop_last(), depth, pk, sr)
    } else {
        &&& os.len() > 0
        &&& forest_mirrors(os.drop_last(), ds.drop_last(), depth, pk, sr)
        &&& node_mirrors(os.last(), ds.last(), depth, pk, sr)
    }
}

/// `t` is the tree built from the root listing `ds`.
pub open spec fn tree_mirrors(t: InstallerOption, ds: Seq<SourceDir>) -> bool {
    &&& t.original_name@ == ROOT_NAME@
    &&& t.name@ == ROOT_NAME@
    &&& t.radio_check == RadioCheck::Locked
    &&& t.depth == 0
    &&& t.parent@ == Seq::<char>::empty()
    &&& t.location@ == Seq::<char>::empty()
    &&& forest_mirrors(t.children@, ds, 1, TOP_KEY@, SOURCE_ROOT@)
}


/// `o` is a well-formed node at `depth` under the parent key `pk` and the
/// source root `sr`: its display name and kind are those of its raw name,
/// and each child sits one level deeper, under keys extended by this node.
pub open spec fn node_wf(o: InstallerOption, depth: int, pk: Seq<char>, sr: Seq<char>) -> bool
    decreases o,
{
    &&& o.name@ == sanitized(o.original_name@)
    &&& o.radio_check == kind_of(o.original_name@)
    &&& o.depth == depth
    &&& o.parent@ == pk
    &&& o.location@ == sr
    &&& forest_wf(o.children@, depth + 1, joined(pk, o.name@), joined(sr, o.original_name@))
}

pub open spec fn forest_wf(os: Seq<InstallerOption>, depth: int, pk: Seq<char>, sr: Seq<char>) -> bool
    decreases os,
{
    if os.len() == 0 {
        true
    } else {
        forest_wf(os.drop_last(), depth, pk, sr) && node_wf(os.last(), depth, pk, sr)
    }
}

/// A well-formed option tree: a Locked root at depth 0 whose children are
/// well-formed nodes at depth 1.
pub open spec fn tree_wf(t: InstallerOption) -> bool {
    &&& t.radio_check == RadioCheck::Locked
    &&& t.depth == 0
    &&& forest_wf(t.children@, 1, TOP_KEY@, SOURCE_ROOT@)
}

proof fn lemma_node_mirrors_wf(o: InstallerOption, d: SourceDir, depth: int, pk: Seq<char>, sr: Seq<char>)
    requires
        node_mirrors(o, d, depth, pk, sr),
    ensures
        node_wf(o, depth, pk, sr),
    decreases d,
{
    let v = d.subdirs->0;
    lemma_forest_mirrors_wf(
        o.children@,
        v@,
        depth + 1,
        joined(pk, sanitized(d.name@)),
        joined(sr, d.name@),
    );
}

proof fn lemma_forest_mirrors_wf(
    os: Seq<InstallerOption>,
    ds: Seq<SourceDir>,
    depth: int,
    pk: Seq<char>,
    sr: Seq<char>,
)
    requires
        forest_mirrors(os, ds, depth, pk, sr),
    ensures
        forest_wf(os, depth, pk, sr),
    decreases ds,
{
    if ds.len() > 0 {
        if ds.last().subdirs is None {
            lemma_forest_mirrors_wf(os, ds.drop_last(), depth, pk, sr);
        } else {
            lemma_forest_mirrors_wf(os.drop_last(), ds.drop_last(), depth, pk, sr);
            lemma_node_mirrors_wf(os.last(), ds.last(), depth, pk, sr);
        }
    }
}

/// Every tree built from a listing is well formed.
pub proof fn lemma_built_tree_is_well_formed(t: InstallerOption, ds: Seq<SourceDir>)
    requires
        tree_mirrors(t, ds),
    ensures
        tree_wf(t),
{
    lemma_forest_mirrors_wf(t.children@, ds, 1, TOP_KEY@, SOURCE_ROOT@);
}

/// Why no tree could be built.
#[derive(Debug, Clone, Copy, PartialEq, Eq, Structural)]
pub enum BuildError {
    /// The root listing could not be read.
    Unreadable,
    /// The directories nest deeper than a depth can count.
    TooDeep,
}

/// A directory listed at index `i` is no higher than the whole listing.
pub proof fn lemma_dir_within_forest(ds: Seq<SourceDir>, i: int)
    requires
        0 <= i < ds.len(),
    ensures
        dir_height(ds[i]) <= forest_height(ds),
    decreases ds.len(),
{
    if i < ds.len() - 1 {
        lemma_dir_within_forest(ds.drop_last(), i);
        assert(ds.drop_last()[i] == ds[i]);
    }
}

/// Whether the directories of `ds` nest no deeper than `budget`.
pub fn fits_depth(ds: &Vec<SourceDir>, budget: u16) -> (r: bool)
    ensures
        r == (forest_height(ds@) <= budget),
    decreases forest_height(ds@),
{
    let mut i: usize = 0;
    while i < ds.len()
        invariant
            i <= ds@.len(),
            forest_height(ds@.take(i as int)) <= budget,
        decreases ds@.len() - i,
    {
        assert(ds@.take(i as int + 1).drop_last() == ds@.take(i as int));
        assert(ds@.take(i as int + 1).last() == ds@[i as int]);
        let d = &ds[i];
        match &d.subdirs {
            None => {
                if budget == 0 {
                    proof {
                        lemma_dir_within_forest(ds@, i as int);
                    }
                    return false;
                }
                assert(dir_height(*d) == 1);
            },
            Some(sub) => {
                proof {
                    lemma_dir_within_forest(ds@, i as int);
                }
                if budget == 0 || !fits_depth(sub, budget - 1) {
                    return false;
                }
                assert(dir_height(*d) == 1 + forest_height(sub@));
            },
        }
        i = i + 1;
    }
    assert(ds@.take(ds@.len() as int) == ds@);
    true
}

impl InstallerOption {
    /// A node with no children, at depth 0, with empty keys.
    pub fn new(original_name: String, radio_check: RadioCheck) -> (r: InstallerOption)
        ensures
            r.name@ == sanitized(original_name@),
            r.original_name@ == original_name@,
            r.radio_check == radio_check,
            r.children@.len() == 0,
            r.depth == 0,
            r.parent@.len() == 0,
            r.location@.len() == 0,
    {
        let name = prettify_folder_name(original_name.as_str());
        InstallerOption {
            name,
            original_name,
            location: String::new(),
            radio_check,
            children: Vec::new(),
            depth: 0,
            parent: String::new(),
        }
    }

    /// This node with `children` placed before its own children.
    pub fn push_children(self, children: Vec<InstallerOption>) -> (r: InstallerOption)
        ensures
            r.children@ == children@ + self.children@,
            r.name == self.name,
            r.original_name == self.original_name,
            r.location == self.location,
            r.radio_check == self.radio_check,
            r.depth == self.depth,
            r.parent == self.parent,
    {
        let mut all = children;
        let mut own = self.children;
        all.append(&mut own);
        InstallerOption {
            name: self.name,
            original_name: self.original_name,
            location: self.location,
            radio_check: self.radio_check,
            children: all,
            depth: self.depth,
            parent: self.parent,
        }
    }

    /// Whether the option starts out selected.
    pub fn checked(&self) -> (r: bool)
        ensures
            r == (self.radio_check == RadioCheck::Checked || self.radio_check
                == RadioCheck::RadioChecked),
    {
        match self.radio_check {
            RadioCheck::Checked | RadioCheck::RadioChecked => true,
            _ => false,
        }
    }
}

/// `a/b` as a string.
fn join_keys(a: &str, b: &str) -> (r: String)
    ensures
        r@ == joined(a@, b@),
{
    proof {
        reveal_strlit("/");
    }
    String::from_str(a).concat("/").concat(b)
}

/// The nodes for the readable directories of `dirs`, each with its subtree,
/// placed one level below `parent_depth` under the given parent key and
/// source root. A directory whose listing could not be read is skipped
/// together with its subtree.
pub fn parse_folder(
    dirs: &Vec<SourceDir>,
    parent_depth: u16,
    parent_name: &str,
    original_parent_name: &str,
) -> (r: Vec<InstallerOption>)
    requires
        parent_depth + forest_height(dirs@) <= u16::MAX,
    ensures
        forest_mirrors(r@, dirs@, parent_depth + 1, parent_name@, original_parent_name@),
    decreases forest_height(dirs@),
{
    let mut options: Vec<InstallerOption> = Vec::new();
    let mut i: usize = 0;
    while i < dirs.len()
        invariant
            i <= dirs@.len(),
            parent_depth + forest_height(dirs@) <= u16::MAX,
            forest_mirrors(
                options@,
                dirs@.take(i as int),
                parent_depth + 1,
                parent_name@,
                original_parent_name@,
            ),
        decreases dirs@.len() - i,
    {
        let ghost taken = dirs@.take(i as int + 1);
        assert(taken.drop_last() == dirs@.take(i as int));
        assert(taken.last() == dirs@[i as int]);
        let d = &dirs[i];
        proof {
            lemma_dir_within_forest(dirs@, i as int);
        }
        match &d.subdirs {
            None => {},
            Some(sub) => {
                let mut opt = InstallerOption::new(
                    String::from_str(d.name.as_str()),
                    RadioCheck::determine(d.name.as_str()),
                );
                opt.depth = parent_depth + 1;
                opt.parent = String::from_str(parent_name);
                opt.location = String::from_str(original_parent_name);
                let key = join_keys(parent_name, opt.name.as_str());
                let source = join_keys(original_parent_name, opt.original_name.as_str());
                let children = parse_folder(sub, parent_depth + 1, key.as_str(), source.as_str());
                let node = opt.push_children(children);
                assert(node.children@ =~= children@);
                assert(node_mirrors(
                    node,
                    *d,
                    parent_depth + 1,
                    parent_name@,
                    original_parent_name@,
                ));
                let ghost before = options@;
                options.push(node);
                assert(options@.drop_last() == before);
            },
        }
        i = i + 1;
    }
    assert(dirs@.take(dirs@.len() as int) == dirs@);
    options
}

/// The option tree of a root listing: a locked root node with a fixed
/// name, above the nodes of the listing's readable directories.
pub fn folder_structure(dirs: &Vec<SourceDir>) -> (r: InstallerOption)
    requires
        forest_height(dirs@) < u16::MAX,
    ensures
        tree_mirrors(r, dirs@),
        tree_wf(r),
{
    proof {
        reveal_strlit("Network Addon Mod");
        crate::codec::lemma_clean_is_fixed(ROOT_NAME@);
    }
    let root = InstallerOption::new(String::from_str(ROOT_NAME), RadioCheck::Locked);
    let children = parse_folder(dirs, 0, TOP_KEY, SOURCE_ROOT);
    let r = root.push_children(children);
    assert(r.children@ =~= children@);
    assert(r.parent@ =~= Seq::<char>::empty());
    assert(r.location@ =~= Seq::<char>::empty());
    proof {
        lemma_built_tree_is_well_formed(r, dirs@);
    }
    r
}

/// The option tree of the installation folder, from a snapshot of its
/// listing (`None` when the folder itself could not be read).
pub fn temp_files(installation: &Option<Vec<SourceDir>>) -> (r: Result<InstallerOption, BuildError>)
    ensures
        installation is None ==> r == Err::<InstallerOption, BuildError>(BuildError::Unreadable),
        installation is Some && forest_height(installation->0@) >= u16::MAX ==> r
            == Err::<InstallerOption, BuildError>(BuildError::TooDeep),
        installation is Some && forest_height(installation->0@) < u16::MAX ==> (r is Ok
            && tree_mirrors(r->Ok_0, installation->0@) && tree_wf(r->Ok_0)),
{
    match installation {
        None => Err(BuildError::Unreadable),
        Some(ds) => {
            if fits_depth(ds, u16::MAX - 1) {
                Ok(folder_structure(ds))
            } else {
                Err(BuildError::TooDeep)
            }
        },
    }
}

} // verus!
