//! The notebook: its two root paths and the resolution of candidate paths
//! into items, never past the `Notes` directory.
use crate::item::{Item, ItemView};
use crate::path::{
    extension, file_name, file_name_of, has_file_name, is_markdown_name, is_within, join_path,
    joined, names_entry, relative_of, relative_to, stem, stem_of, within,
};
use vstd::prelude::*;
use vstd::string::*;

verus! {

/// What the filesystem reported about an entry when it was looked at.
#[derive(Clone, Copy, Debug, PartialEq, Eq, Structural)]
pub enum EntryKind {
    Missing,
    File,
    Folder,
    Other,
}

/// A canonical path (absolute, symlinks resolved, no `.` or `..`) together
/// with the kind of entry found there.
#[derive(Debug, PartialEq)]
pub struct Probe {
    pub path: String,
    pub kind: EntryKind,
}

/// A notebook rooted at a directory; its notes live under `<root>/Notes`.
#[derive(Debug, PartialEq)]
pub struct Notebook {
    notebook_path: String,
    notes_path: String,
}

/// The segment that leads from a notebook's root to its notes.
pub open spec fn notes_suffix() -> Seq<char> {
    seq!['/', 'N', 'o', 't', 'e', 's']
}

/// A canonical path is accepted when it lies within `notes` and names an entry.
pub open spec fn sandboxed(c: Seq<char>, notes: Seq<char>) -> bool {
    within(c, notes) && has_file_name(c)
}

/// The item that a probed canonical path stands for, if any: it must be
/// sandboxed, still exist, and be a folder or a non-file entry or a file with
/// extension `md`.
pub open spec fn resolved(notes: Seq<char>, c: Seq<char>, kind: EntryKind) -> Option<ItemView> {
    if !sandboxed(c, notes) || kind == EntryKind::Missing {
        None
    } else if kind == EntryKind::File && extension(file_name(c)) != Some(seq!['m', 'd']) {
        None
    } else {
        Some(
            ItemView {
                name: stem(file_name(c)),
                path: relative_to(c, notes),
                is_folder: kind == EntryKind::Folder,
            },
        )
    }
}

/// [`resolved`] on an optional probe; no probe means the path did not canonicalize.
pub open spec fn resolved_probe(notes: Seq<char>, probe: Option<Probe>) -> Option<ItemView> {
    match probe {
        Some(p) => resolved(notes, p.path@, p.kind),
        None => None,
    }
}

/// No probed path outside the notes directory resolves: whatever `..`
/// segments or absolute form a candidate had, its canonical path decides.
pub proof fn lemma_outside_never_resolves(notes: Seq<char>, c: Seq<char>, kind: EntryKind)
    requires
        !within(c, notes),
    ensures
        !sandboxed(c, notes),
        resolved(notes, c, kind) is None,
{
}

/// A path that extends the notes directory's path without a `/` in between
/// (a sibling such as `NotesX`) is not within it.
pub proof fn lemma_sibling_is_outside(notes: Seq<char>, c: Seq<char>)
    requires
        notes.len() < c.len(),
        c.subrange(0, notes.len() as int) == notes,
        c[notes.len() as int] != '/',
    ensures
        !within(c, notes),
{
}

/// A file resolves only when its extension is exactly `md`, and then under
/// the stem of its name.
pub proof fn lemma_markdown_only(notes: Seq<char>, c: Seq<char>)
    ensures
        extension(file_name(c)) != Some(seq!['m', 'd']) ==> resolved(notes, c, EntryKind::File) is None,
        sandboxed(c, notes) && extension(file_name(c)) == Some(seq!['m', 'd']) ==> resolved(
            notes,
            c,
            EntryKind::File,
        ) == Some(
            ItemView {
                name: stem(file_name(c)),
                path: relative_to(c, notes),
                is_folder: false,
            },
        ),
{
}

/// An absolute path: one that starts with `/`.
pub open spec fn is_absolute(p: Seq<char>) -> bool {
    p.len() > 0 && p[0] == '/'
}

/// The notes directory of a notebook rooted at `root`: `root` joined with
/// `Notes`, with no second `/` where `root` already ends in one (the
/// filesystem root `/` gives `/Notes`).
pub open spec fn notes_dir_of(root: Seq<char>) -> Seq<char> {
    if root.len() > 0 && root.last() == '/' {
        root + seq!['N', 'o', 't', 'e', 's']
    } else {
        root + notes_suffix()
    }
}

/// A notebook for a root directory, given the probe of its canonical path:
/// there is one exactly when the root canonicalized to an absolute path of a
/// folder. The notes directory need not exist yet.
pub fn get_notebook(root: Option<Probe>) -> (r: Option<Notebook>)
    ensures
        r is Some <==> (root is Some && root.unwrap().kind == EntryKind::Folder && is_absolute(
            root.unwrap().path@,
        )),
        r is Some ==> r.unwrap().root_view() == root.unwrap().path@,
        r is Some ==> r.unwrap().notes_view() == notes_dir_of(root.unwrap().path@),
        r is Some ==> is_absolute(r.unwrap().notes_view()),
{
    match root {
        Some(p) => {
            let n = p.path.as_str().unicode_len();
            if p.kind == EntryKind::Folder && n > 0 && p.path.as_str().get_char(0) == '/' {
                let notebook_path = p.path;
                let mut notes_path = notebook_path.clone();
                if notebook_path.as_str().get_char(n - 1) == '/' {
                    notes_path.append("Notes");
                    proof {
                        reveal_strlit("Notes");
                        assert("Notes"@ =~= seq!['N', 'o', 't', 'e', 's']);
                    }
                } else {
                    notes_path.append("/Notes");
                    proof {
                        reveal_strlit("/Notes");
                        assert("/Notes"@ =~= notes_suffix());
                    }
                }
                Some(Notebook { notebook_path, notes_path })
            } else {
                None
            }
        },
        None => None,
    }
}

impl Notebook {
    /// The notebook's root directory.
    pub closed spec fn root_view(&self) -> Seq<char> {
        self.notebook_path@
    }

    /// The notes directory: the sandbox that no item leaves.
    pub closed spec fn notes_view(&self) -> Seq<char> {
        self.notes_path@
    }

    pub fn notebook_path(&self) -> (r: &str)
        ensures
            r@ == self.root_view(),
    {
        self.notebook_path.as_str()
    }

    pub fn notes_path(&self) -> (r: &str)
        ensures
            r@ == self.notes_view(),
    {
        self.notes_path.as_str()
    }

    /// The path to canonicalize for `candidate`: an absolute candidate as it
    /// is, a relative one under the notes directory.
    pub fn candidate_path(&self, candidate: &str) -> (r: String)
        ensures
            r@ == joined(self.notes_view(), candidate@),
    {
        join_path(self.notes_path.as_str(), candidate)
    }

    /// The canonical form of a candidate path, kept only when it lies within
    /// the notes directory and names an entry; `None` stands for a candidate
    /// that did not canonicalize.
    pub fn to_fs_path(&self, canonical: Option<String>) -> (r: Option<String>)
        ensures
            r is Some <==> (canonical is Some && sandboxed(
                canonical.unwrap()@,
                self.notes_view(),
            )),
            r is Some ==> r.unwrap()@ == canonical.unwrap()@,
    {
        match canonical {
            Some(c) => {
                if is_within(c.as_str(), self.notes_path.as_str()) && names_entry(c.as_str()) {
                    Some(c)
                } else {
                    None
                }
            },
            None => None,
        }
    }

    pub(crate) fn resolve<'a>(&'a self, p: &Probe) -> (r: Option<Item<'a>>)
        ensures
            r is Some <==> resolved(self.notes_view(), p.path@, p.kind) is Some,
            r is Some ==> r.unwrap()@ == resolved(self.notes_view(), p.path@, p.kind).unwrap(),
            r is Some ==> r.unwrap().notebook == self,
    {
        let c = p.path.as_str();
        if !is_within(c, self.notes_path.as_str()) || !names_entry(c) {
            return None;
        }
        if p.kind == EntryKind::Missing {
            return None;
        }
        let file = file_name_of(c);
        if p.kind == EntryKind::File && !is_markdown_name(file.as_str()) {
            return None;
        }
        Some(
            Item {
                name: stem_of(file.as_str()),
                path: relative_of(c, self.notes_path.as_str()),
                is_folder: p.kind == EntryKind::Folder,
                notebook: self,
            },
        )
    }

    /// The item that a probed candidate stands for: the probe is of the
    /// canonical form of [`Notebook::candidate_path`].
    pub fn get_item<'a>(&'a self, probe: Option<Probe>) -> (r: Option<Item<'a>>)
        ensures
            r is Some <==> resolved_probe(self.notes_view(), probe) is Some,
            r is Some ==> r.unwrap()@ == resolved_probe(self.notes_view(), probe).unwrap(),
            r is Some ==> r.unwrap().notebook == self,
    {
        match probe {
            Some(p) => self.resolve(&p),
            None => None,
        }
    }

    /// The notes directory as an item, given the probe of the notes directory.
    pub fn get_root<'a>(&'a self, probe: Option<Probe>) -> (r: Option<Item<'a>>)
        ensures
            r is Some <==> resolved_probe(self.notes_view(), probe) is Some,
            r is Some ==> r.unwrap()@ == resolved_probe(self.notes_view(), probe).unwrap(),
            r is Some ==> r.unwrap().notebook == self,
    {
        self.get_item(probe)
    }
}

} // verus!
