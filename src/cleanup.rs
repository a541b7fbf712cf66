//! Cleanup stage: legacy files named in a manifest are moved out of the
//! destination into a backup mirror, at the same relative path.

use crate::progress::{after, ProgressEvent, ProgressTracker};
use crate::resolve::string_views;
use crate::text::{chars_of, file_name_of, find_last_slash, last_slash, string_of_range};
use crate::tree::joined;
use vstd::prelude::*;

verus! {

/// Appended to the destination to name the backup mirror.
pub const BACKUP_SUFFIX: &'static str = "_bak";

/// Index of the first newline of `s`, or -1.
pub open spec fn first_newline(s: Seq<char>) -> int
    decreases s.len(),
{
    if s.len() == 0 {
        -1
    } else if s[0] == '\n' {
        0
    } else {
        let r = first_newline(s.drop_first());
        if r < 0 {
            -1
        } else {
            r + 1
        }
    }
}

/// A line without the carriage return of a `\r\n` ending.
pub open spec fn without_cr(l: Seq<char>) -> Seq<char> {
    if l.len() > 0 && l.last() == '\r' {
        l.drop_last()
    } else {
        l
    }
}

/// The lines of `s`: split at each `\n` (a `\r` before it dropped), with
/// no empty line after a final newline.
pub open spec fn lines_of(s: Seq<char>) -> Seq<Seq<char>>
    decreases s.len(),
{
    let i = first_newline(s);
    if s.len() == 0 {
        Seq::empty()
    } else if i < 0 || i >= s.len() {
        seq![s]
    } else {
        seq![without_cr(s.take(i))] + lines_of(s.skip(i + 1))
    }
}

proof fn lemma_first_newline(s: Seq<char>, m: int)
    requires
        0 <= m <= s.len(),
        forall|k: int| 0 <= k < m ==> s[k] != '\n',
        m < s.len() ==> s[m] == '\n',
    ensures
        first_newline(s) == (if m < s.len() {
            m
        } else {
            -1
        }),
    decreases m,
{
    if m > 0 {
        let t = s.drop_first();
        assert forall|k: int| 0 <= k < m - 1 implies t[k] != '\n' by {
            assert(t[k] == s[k + 1]);
        }
        if m < s.len() {
            assert(t[m - 1] == s[m]);
        }
        lemma_first_newline(t, m - 1);
    }
}

/// The lines of a manifest text.
pub fn manifest_lines(text: &str) -> (r: Vec<String>)
    ensures
        string_views(r@) == lines_of(text@),
{
    let cs = chars_of(text);
    let mut out: Vec<String> = Vec::new();
    let mut start: usize = 0;
    assert(cs@.skip(0) == cs@);
    assert(string_views(out@) =~= Seq::<Seq<char>>::empty());
    while start < cs.len()
        invariant
            start <= cs@.len(),
            cs@ == text@,
            string_views(out@) + lines_of(cs@.skip(start as int)) == lines_of(cs@),
        decreases cs@.len() - start,
    {
        let ghost rest = cs@.skip(start as int);
        let ghost before = string_views(out@);
        let mut j: usize = start;
        while j < cs.len() && cs[j] != '\n'
            invariant
                start <= j <= cs@.len(),
                forall|k: int| start <= k < j ==> cs@[k] != '\n',
            decreases cs@.len() - j,
        {
            j = j + 1;
        }
        proof {
            assert forall|k: int| 0 <= k < j - start implies rest[k] != '\n' by {
                assert(rest[k] == cs@[start + k]);
            }
            if j < cs@.len() {
                assert(rest[j - start] == cs@[j as int]);
            }
            lemma_first_newline(rest, j - start);
        }
        if j < cs.len() {
            let end = if j > start && cs[j - 1] == '\r' {
                j - 1
            } else {
                j
            };
            let line = string_of_range(&cs, start, end);
            assert(rest.take(j - start) == cs@.subrange(start as int, j as int));
            assert(line@ == without_cr(rest.take(j - start)));
            out.push(line);
            assert(rest.skip(j - start + 1) == cs@.skip(j + 1));
            assert(string_views(out@) =~= before.push(line@));
            assert(lines_of(rest) == seq![line@] + lines_of(cs@.skip(j + 1)));
            assert(string_views(out@) + lines_of(cs@.skip(j + 1)) =~= before + lines_of(rest));
            start = j + 1;
        } else {
            let line = string_of_range(&cs, start, cs.len());
            assert(line@ == rest);
            out.push(line);
            assert(string_views(out@) =~= before.push(line@));
            assert(lines_of(rest) == seq![rest]);
            assert(cs@.skip(cs@.len() as int) =~= Seq::<char>::empty());
            assert(string_views(out@) + lines_of(cs@.skip(cs@.len() as int)) =~= before + lines_of(rest));
            start = cs.len();
        }
    }
    assert(cs@.skip(cs@.len() as int) =~= Seq::<char>::empty());
    assert(string_views(out@) + Seq::<Seq<char>>::empty() =~= string_views(out@));
    out
}

/// What a cleanup stage works with.
pub struct CleanupView {
    pub destination: Seq<char>,
    pub backup: Seq<char>,
    pub manifest: Seq<Seq<char>>,
}

/// A file move that cleanup asks for: create `folder`, then rename `from`
/// to `to`.
#[derive(Debug, Clone, PartialEq, Eq)]
pub struct Relocation {
    pub from: String,
    pub to: String,
    pub folder: String,
}

pub struct RelocationView {
    pub from: Seq<char>,
    pub to: Seq<char>,
    pub folder: Seq<char>,
}

impl View for Relocation {
    type V = RelocationView;

    open spec fn view(&self) -> RelocationView {
        RelocationView { from: self.from@, to: self.to@, folder: self.folder@ }
    }
}

/// The directory under `base` that holds the entry at relative path `rel`.
pub open spec fn holder_of(base: Seq<char>, rel: Seq<char>) -> Seq<char> {
    if last_slash(rel) < 0 {
        base
    } else {
        joined(base, rel.take(last_slash(rel)))
    }
}

/// The move asked for the destination entry at relative path `rel`: one
/// exactly when its file name is a line of the manifest, to the same
/// relative path under the backup root.
pub open spec fn relocation_of(c: CleanupView, rel: Seq<char>) -> Option<RelocationView> {
    if c.manifest.contains(file_name_of(rel)) {
        Some(
            RelocationView {
                from: joined(c.destination, rel),
                to: joined(c.backup, rel),
                folder: holder_of(c.backup, rel),
            },
        )
    } else {
        None
    }
}

/// Cleanup moves only files whose name the manifest lists, and each one
/// lands at its own relative path under the backup root.
pub proof fn lemma_cleanup_moves_listed_files(c: CleanupView, rel: Seq<char>)
    ensures
        !c.manifest.contains(file_name_of(rel)) ==> relocation_of(c, rel) is None,
        relocation_of(c, rel) matches Some(m) ==> m.to == joined(c.backup, rel) && m.from
            == joined(c.destination, rel) && c.manifest.contains(file_name_of(rel)),
{
}

/// The cleanup of one destination against one manifest.
pub struct CleanupStage {
    destination: String,
    backup: String,
    manifest: Vec<String>,
}

impl View for CleanupStage {
    type V = CleanupView;

    closed spec fn view(&self) -> CleanupView {
        CleanupView {
            destination: self.destination@,
            backup: self.backup@,
            manifest: string_views(self.manifest@),
        }
    }
}

impl CleanupStage {
    /// The cleanup of `destination`, whose backup mirror is the destination
    /// path with `_bak` appended to its last folder name, against the files
    /// listed one per line in `manifest_text`.
    pub fn new(destination: &str, manifest_text: &str) -> (r: CleanupStage)
        ensures
            r@.destination == destination@,
            r@.backup == destination@ + BACKUP_SUFFIX@,
            r@.manifest == lines_of(manifest_text@),
    {
        CleanupStage {
            destination: String::from_str(destination),
            backup: String::from_str(destination).concat(BACKUP_SUFFIX),
            manifest: manifest_lines(manifest_text),
        }
    }

    /// Root of the backup mirror.
    pub fn backup_root(&self) -> (r: String)
        ensures
            r@ == self@.backup,
    {
        self.backup.clone()
    }

    /// Visits the destination entry at relative path `relative` (segments
    /// separated by `/`): records its file name as visited, whether or not
    /// it is to move, and returns the move it needs, if any.
    pub fn visit(&self, tracker: &mut ProgressTracker, relative: &str) -> (r: Option<Relocation>)
        ensures
            final(tracker)@ == after(old(tracker)@, ProgressEvent::Visited(file_name_of(relative@))),
            r is None <==> relocation_of(self@, relative@) is None,
            r is Some ==> relocation_of(self@, relative@) == Some(r->0@),
    {
        let cs = chars_of(relative);
        let n = cs.len();
        assert(n == cs@.len());
        let slash = find_last_slash(&cs);
        proof {
            crate::text::lemma_last_slash_bounds(cs@);
        }
        let name_start = match slash {
            Some(k) => k + 1,
            None => 0,
        };
        let name = string_of_range(&cs, name_start, cs.len());
        assert(name@ == file_name_of(relative@));
        let mut listed = false;
        let mut i: usize = 0;
        while i < self.manifest.len()
            invariant
                i <= self.manifest@.len(),
                listed == string_views(self.manifest@).take(i as int).contains(name@),
            decreases self.manifest@.len() - i,
        {
            let ghost t = string_views(self.manifest@).take(i as int + 1);
            assert(t == string_views(self.manifest@).take(i as int).push(self.manifest@[i as int]@));
            if self.manifest[i] == name {
                assert(t[i as int] == name@);
                listed = true;
            } else if listed {
                let ghost w = choose|w: int| 0 <= w < i && string_views(self.manifest@).take(i as int)[w] == name@;
                assert(t[w] == name@);
            } else {
                assert forall|w: int| 0 <= w < t.len() implies t[w] != name@ by {
                    if w < i {
                        assert(t[w] == string_views(self.manifest@).take(i as int)[w]);
                    }
                }
            }
            i = i + 1;
        }
        assert(string_views(self.manifest@).take(self.manifest@.len() as int) == string_views(self.manifest@));
        tracker.record_cleaned(name);
        if !listed {
            return None;
        }
        proof {
            reveal_strlit("/");
        }
        let from = self.destination.clone().concat("/").concat(relative);
        let to = self.backup.clone().concat("/").concat(relative);
        let folder = match slash {
            Some(k) => {
                let dir = string_of_range(&cs, 0, k);
                assert(dir@ == relative@.take(k as int));
                self.backup.clone().concat("/").concat(dir.as_str())
            },
            None => self.backup.clone(),
        };
        assert(folder@ == holder_of(self@.backup, relative@));
        assert(from@ == joined(self@.destination, relative@));
        assert(to@ == joined(self@.backup, relative@));
        let r = Relocation { from, to, folder };
        assert(relocation_of(self@, relative@) == Some(r@));
        Some(r)
    }
}

} // verus!
