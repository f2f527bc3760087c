use iroiro_core::order::compare_names;
use iroiro_core::path::{parent_path, stem_of};
use iroiro_core::{get_notebook, EntryKind, Item, Notebook, Probe};
use std::cmp::Ordering;

const ROOT: &str = "/work/test";

fn probe(path: &str, kind: EntryKind) -> Probe {
    Probe { path: path.to_string(), kind }
}

fn notebook() -> Notebook {
    get_notebook(Some(probe(ROOT, EntryKind::Folder))).unwrap()
}

fn under_notes(rel: &str, kind: EntryKind) -> Option<Probe> {
    Some(probe(&format!("{}/Notes/{}", ROOT, rel), kind))
}

#[test]
fn test_get_notebook() {
    let nb = notebook();
    assert_eq!(nb.notebook_path(), "/work/test");
    assert_eq!(nb.notes_path(), "/work/test/Notes");
}

#[test]
fn test_get_notes() {
    let notebook = notebook();
    let root = notebook
        .get_root(Some(probe("/work/test/Notes", EntryKind::Folder)))
        .unwrap();
    let children = root.children(Some(vec![under_notes("subfolder", EntryKind::Folder)]));

    let subfolder = Item {
        name: "subfolder".into(),
        path: "subfolder".into(),
        is_folder: true,
        notebook: &notebook,
    };

    assert!(children.contains(&subfolder));
    assert_eq!(
        subfolder.children(Some(vec![
            under_notes("subfolder/subtest.md", EntryKind::File),
            under_notes("subfolder/hello.md", EntryKind::File),
        ])),
        vec![
            Item {
                name: "hello".into(),
                path: "subfolder/hello.md".into(),
                is_folder: false,
                notebook: &notebook
            },
            Item {
                name: "subtest".into(),
                path: "subfolder/subtest.md".into(),
                is_folder: false,
                notebook: &notebook
            }
        ]
    );
}

#[test]
fn notebook_needs_a_folder() {
    assert!(get_notebook(None).is_none());
    assert!(get_notebook(Some(probe("/work/file.md", EntryKind::File))).is_none());
    assert!(get_notebook(Some(probe("/work/gone", EntryKind::Missing))).is_none());
}

#[test]
fn candidate_paths_join_under_notes() {
    let nb = notebook();
    assert_eq!(nb.candidate_path(""), "/work/test/Notes");
    assert_eq!(nb.candidate_path("a/b.md"), "/work/test/Notes/a/b.md");
    assert_eq!(nb.candidate_path("../secret"), "/work/test/Notes/../secret");
    assert_eq!(nb.candidate_path("/etc/passwd"), "/etc/passwd");
}

#[test]
fn sandbox_rejects_paths_outside_notes() {
    let nb = notebook();
    // what `../secret` and `/etc/passwd` canonicalize to
    assert_eq!(nb.to_fs_path(Some("/work/test/secret".to_string())), None);
    assert_eq!(nb.to_fs_path(Some("/etc/passwd".to_string())), None);
    assert_eq!(nb.to_fs_path(Some("/work/test/NotesX/a.md".to_string())), None);
    assert_eq!(nb.to_fs_path(Some("/work/test/Note".to_string())), None);
    assert_eq!(nb.to_fs_path(Some("/".to_string())), None);
    assert_eq!(nb.to_fs_path(None), None);
    assert!(nb
        .get_item(Some(probe("/work/test/NotesX/a.md", EntryKind::File)))
        .is_none());
    assert!(nb
        .get_item(Some(probe("/work/test/secret", EntryKind::Folder)))
        .is_none());
}

#[test]
fn sandbox_accepts_paths_inside_notes() {
    let nb = notebook();
    assert_eq!(
        nb.to_fs_path(Some("/work/test/Notes/a/b.md".to_string())),
        Some("/work/test/Notes/a/b.md".to_string())
    );
    assert_eq!(
        nb.to_fs_path(Some("/work/test/Notes".to_string())),
        Some("/work/test/Notes".to_string())
    );
}

#[test]
fn root_item_has_empty_path() {
    let nb = notebook();
    let root = nb
        .get_root(Some(probe("/work/test/Notes", EntryKind::Folder)))
        .unwrap();
    assert_eq!(root.name, "Notes");
    assert_eq!(root.path, "");
    assert!(root.is_folder);
    assert!(nb.get_root(None).is_none());
    assert!(nb
        .get_root(Some(probe("/work/test/Notes", EntryKind::Missing)))
        .is_none());
}

#[test]
fn only_markdown_files_resolve() {
    let nb = notebook();
    assert!(nb.get_item(under_notes("foo.txt", EntryKind::File)).is_none());
    assert!(nb.get_item(under_notes("foo.MD", EntryKind::File)).is_none());
    assert!(nb.get_item(under_notes("md", EntryKind::File)).is_none());
    assert!(nb.get_item(under_notes(".md", EntryKind::File)).is_none());
    let foo = nb.get_item(under_notes("foo.md", EntryKind::File)).unwrap();
    assert_eq!(foo.name, "foo");
    assert_eq!(foo.path, "foo.md");
    assert!(!foo.is_folder);
    let nested = nb.get_item(under_notes("a/notes.v2.md", EntryKind::File)).unwrap();
    assert_eq!(nested.name, "notes.v2");
    assert_eq!(nested.path, "a/notes.v2.md");
}

#[test]
fn folders_and_other_entries_resolve_whatever_their_name() {
    let nb = notebook();
    let folder = nb.get_item(under_notes("drafts.old", EntryKind::Folder)).unwrap();
    assert_eq!(folder.name, "drafts");
    assert!(folder.is_folder);
    let other = nb.get_item(under_notes("pipe.txt", EntryKind::Other)).unwrap();
    assert_eq!(other.name, "pipe");
    assert!(!other.is_folder);
}

#[test]
fn missing_entries_do_not_resolve() {
    let nb = notebook();
    assert!(nb.get_item(under_notes("gone.md", EntryKind::Missing)).is_none());
    assert!(nb.get_item(None).is_none());
}

#[test]
fn children_are_in_natural_order() {
    let nb = notebook();
    let root = nb.get_root(Some(probe("/work/test/Notes", EntryKind::Folder))).unwrap();
    let names: Vec<String> = root
        .children(Some(vec![
            under_notes("item10.md", EntryKind::File),
            under_notes("item1.md", EntryKind::File),
            under_notes("item2.md", EntryKind::File),
        ]))
        .into_iter()
        .map(|i| i.name)
        .collect();
    assert_eq!(names, vec!["item1", "item2", "item10"]);
}

#[test]
fn children_order_ignores_case_then_breaks_ties_by_case() {
    let nb = notebook();
    let root = nb.get_root(Some(probe("/work/test/Notes", EntryKind::Folder))).unwrap();
    let names: Vec<String> = root
        .children(Some(vec![
            under_notes("beta.md", EntryKind::File),
            under_notes("apple.md", EntryKind::File),
            under_notes("Beta", EntryKind::Folder),
            under_notes("Apple.md", EntryKind::File),
        ]))
        .into_iter()
        .map(|i| i.name)
        .collect();
    assert_eq!(names, vec!["Apple", "apple", "Beta", "beta"]);
}

#[test]
fn children_leave_out_non_markdown_files() {
    let nb = notebook();
    let root = nb.get_root(Some(probe("/work/test/Notes", EntryKind::Folder))).unwrap();
    let children = root.children(Some(vec![
        under_notes("foo.txt", EntryKind::File),
        under_notes("foo.md", EntryKind::File),
    ]));
    assert_eq!(children.len(), 1);
    assert_eq!(children[0].name, "foo");
    assert_eq!(children[0].path, "foo.md");
}

#[test]
fn children_of_a_file_are_empty() {
    let nb = notebook();
    let file = nb.get_item(under_notes("foo.md", EntryKind::File)).unwrap();
    assert!(file
        .children(Some(vec![under_notes("foo.md/x.md", EntryKind::File)]))
        .is_empty());
    assert!(file.children(None).is_empty());
}

#[test]
fn children_of_an_unlistable_folder_are_empty() {
    let nb = notebook();
    let root = nb.get_root(Some(probe("/work/test/Notes", EntryKind::Folder))).unwrap();
    assert!(root.children(None).is_empty());
    assert!(root.children(Some(vec![])).is_empty());
}

#[test]
fn stale_entries_are_omitted() {
    let nb = notebook();
    let root = nb.get_root(Some(probe("/work/test/Notes", EntryKind::Folder))).unwrap();
    let names: Vec<String> = root
        .children(Some(vec![
            under_notes("b.md", EntryKind::File),
            None,
            under_notes("gone.md", EntryKind::Missing),
            under_notes("a.md", EntryKind::File),
        ]))
        .into_iter()
        .map(|i| i.name)
        .collect();
    assert_eq!(names, vec!["a", "b"]);
}

#[test]
fn symlinks_out_of_the_sandbox_are_omitted() {
    let nb = notebook();
    let root = nb.get_root(Some(probe("/work/test/Notes", EntryKind::Folder))).unwrap();
    let children = root.children(Some(vec![
        Some(probe("/work/test/outside.md", EntryKind::File)),
        under_notes("inside.md", EntryKind::File),
    ]));
    assert_eq!(children.len(), 1);
    assert_eq!(children[0].name, "inside");
}

#[test]
fn parent_of_top_level_item_is_root() {
    let nb = notebook();
    let root_probe = || Some(probe("/work/test/Notes", EntryKind::Folder));
    let root = nb.get_root(root_probe()).unwrap();
    let children = root.children(Some(vec![under_notes("hello.md", EntryKind::File)]));
    let child = &children[0];
    let parent = parent_path(&child.path).unwrap();
    assert_eq!(parent, "");
    assert_eq!(nb.candidate_path(&parent), "/work/test/Notes");
    let back = root.item_parent(child, root_probe()).unwrap();
    assert_eq!(back, root);
    assert_eq!(back.path, "");
}

#[test]
fn parent_of_nested_item_is_its_folder() {
    let nb = notebook();
    let item = nb
        .get_item(under_notes("subfolder/hello.md", EntryKind::File))
        .unwrap();
    assert_eq!(parent_path(&item.path), Some("subfolder".to_string()));
    let parent = item
        .item_parent(&item, under_notes("subfolder", EntryKind::Folder))
        .unwrap();
    assert_eq!(parent.name, "subfolder");
    assert_eq!(parent.path, "subfolder");
    assert!(parent.is_folder);
}

#[test]
fn root_has_no_parent() {
    let nb = notebook();
    let root = nb.get_root(Some(probe("/work/test/Notes", EntryKind::Folder))).unwrap();
    assert!(root
        .item_parent(&root, Some(probe("/work/test", EntryKind::Folder)))
        .is_none());
    assert_eq!(parent_path(""), None);
}

#[test]
fn item_fs_path_stays_in_sandbox() {
    let nb = notebook();
    let item = nb.get_item(under_notes("a/b.md", EntryKind::File)).unwrap();
    assert_eq!(item.candidate_path(), "/work/test/Notes/a/b.md");
    assert_eq!(
        item.fs_path(Some("/work/test/Notes/a/b.md".to_string())),
        Some("/work/test/Notes/a/b.md".to_string())
    );
    assert_eq!(item.fs_path(Some("/elsewhere/b.md".to_string())), None);
    assert_eq!(item.fs_path(None), None);
}

#[test]
fn stems_follow_the_last_dot() {
    assert_eq!(stem_of("a.tar.gz"), "a.tar");
    assert_eq!(stem_of(".bashrc"), ".bashrc");
    assert_eq!(stem_of("plain"), "plain");
    assert_eq!(stem_of("trailing."), "trailing");
}

#[test]
fn names_compare_naturally() {
    assert_eq!(compare_names("item2", "item10"), Ordering::Less);
    assert_eq!(compare_names("item10", "item2"), Ordering::Greater);
    assert_eq!(compare_names("Item2", "item2"), Ordering::Less);
    assert_eq!(compare_names("same", "same"), Ordering::Equal);
}

#[test]
fn notebook_at_filesystem_root() {
    let nb = get_notebook(Some(probe("/", EntryKind::Folder))).unwrap();
    assert_eq!(nb.notebook_path(), "/");
    assert_eq!(nb.notes_path(), "/Notes");
    let root = nb.get_root(Some(probe("/Notes", EntryKind::Folder))).unwrap();
    assert_eq!(root.path, "");
    let item = nb.get_item(Some(probe("/Notes/a/b.md", EntryKind::File))).unwrap();
    assert_eq!(item.name, "b");
    assert_eq!(item.path, "a/b.md");
    assert_eq!(nb.candidate_path("a"), "/Notes/a");
}

#[test]
fn notebook_needs_an_absolute_root() {
    assert!(get_notebook(Some(probe("test", EntryKind::Folder))).is_none());
    assert!(get_notebook(Some(probe("", EntryKind::Folder))).is_none());
}

#[test]
fn stale_entry_keeps_order_of_equal_names() {
    let nb = notebook();
    let root = nb.get_root(Some(probe("/work/test/Notes", EntryKind::Folder))).unwrap();
    let paths = |listing: Vec<Option<Probe>>| -> Vec<String> {
        root.children(Some(listing)).into_iter().map(|i| i.path).collect()
    };
    let with_stale = paths(vec![
        under_notes("same", EntryKind::Folder),
        under_notes("gone.md", EntryKind::Missing),
        under_notes("same.md", EntryKind::File),
    ]);
    let without = paths(vec![
        under_notes("same", EntryKind::Folder),
        under_notes("same.md", EntryKind::File),
    ]);
    assert_eq!(with_stale, vec!["same", "same.md"]);
    assert_eq!(with_stale, without);
}
