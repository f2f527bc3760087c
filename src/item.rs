//! Items: point-in-time views of one file or folder of a notebook.
use crate::notebook::{resolved, resolved_probe, sandboxed, EntryKind, Notebook, Probe};
use crate::order::{compare_names, name_order};
use crate::path::{lemma_last_index_of_bounds, within, extension, file_name, joined, last_index_of, parent_of, parent_path, relative_to, stem};
use core::cmp::Ordering;
use vstd::prelude::*;

verus! {

/// What an item holds, as plain values.
pub struct ItemView {
    pub name: Seq<char>,
    pub path: Seq<char>,
    pub is_folder: bool,
}

/// A file or folder found under the notes directory: its stem, its path
/// relative to the notes directory, and whether it is a folder.
#[derive(Debug, PartialEq)]
pub struct Item<'a> {
    pub name: String,
    pub path: String,
    pub is_folder: bool,
    pub notebook: &'a Notebook,
}

impl<'a> View for Item<'a> {
    type V = ItemView;

    open spec fn view(&self) -> ItemView {
        ItemView { name: self.name@, path: self.path@, is_folder: self.is_folder }
    }
}

/// The views of a sequence of items.
pub open spec fn views<'a>(s: Seq<Item<'a>>) -> Seq<ItemView> {
    s.map_values(|i: Item<'a>| i@)
}

/// No two neighbours are out of [`name_order`].
pub open spec fn sorted_by_name(s: Seq<ItemView>) -> bool {
    forall|k: int| 0 <= k < s.len() - 1 ==> #[trigger] name_order(s[k].name, s[k + 1].name)
        != Ordering::Greater
}

/// The items that the entries of a folder listing stand for, in listing
/// order; an entry that resolves to nothing is left out.
pub open spec fn resolved_all(notes: Seq<char>, listing: Seq<Option<Probe>>) -> Seq<ItemView>
    decreases listing.len(),
{
    if listing.len() == 0 {
        Seq::empty()
    } else {
        let rest = resolved_all(notes, listing.drop_last());
        match resolved_probe(notes, listing.last()) {
            Some(v) => rest.push(v),
            None => rest,
        }
    }
}

/// An entry that did not canonicalize, or that was gone when it was looked
/// at, is left out of a listing and changes nothing else in it.
pub proof fn lemma_stale_entry_omitted(notes: Seq<char>, listing: Seq<Option<Probe>>, i: int)
    requires
        0 <= i < listing.len(),
        listing[i] is None || listing[i].unwrap().kind == EntryKind::Missing,
    ensures
        resolved_all(notes, listing) == resolved_all(notes, listing.remove(i)),
        name_sorted(resolved_all(notes, listing)) == name_sorted(
            resolved_all(notes, listing.remove(i)),
        ),
    decreases listing.len(),
{
    if i == listing.len() - 1 {
        assert(listing.remove(i) =~= listing.drop_last());
    } else {
        let shorter = listing.remove(i);
        assert(shorter.drop_last() =~= listing.drop_last().remove(i));
        assert(shorter.last() == listing.last());
        lemma_stale_entry_omitted(notes, listing.drop_last(), i);
    }
}

/// Every item of a listing is what one of its entries resolves to.
pub proof fn lemma_listed_items_resolve(notes: Seq<char>, listing: Seq<Option<Probe>>)
    ensures
        forall|k: int|
            0 <= k < resolved_all(notes, listing).len() ==> exists|i: int|
                0 <= i < listing.len() && resolved_probe(notes, listing[i]) == Some(
                    #[trigger] resolved_all(notes, listing)[k],
                ),
    decreases listing.len(),
{
    if listing.len() > 0 {
        let front = listing.drop_last();
        lemma_listed_items_resolve(notes, front);
        let all = resolved_all(notes, listing);
        let rest = resolved_all(notes, front);
        assert forall|k: int| 0 <= k < all.len() implies exists|i: int|
            0 <= i < listing.len() && resolved_probe(notes, listing[i]) == Some(
                #[trigger] all[k],
            ) by {
            if k < rest.len() {
                assert(all[k] == rest[k]);
                let i = choose|i: int| 0 <= i < front.len() && resolved_probe(notes, front[i]) == Some(rest[k]);
                assert(listing[i] == front[i]);
            } else {
                assert(resolved_probe(notes, listing[listing.len() - 1]) == Some(all[k]));
            }
        }
    }
}

/// `v` is named after a listed entry that is a folder, a non-file entry or a
/// file with extension `md`.
pub open spec fn from_markdown_or_folder(listing: Seq<Option<Probe>>, v: ItemView) -> bool {
    exists|i: int|
        0 <= i < listing.len() && #[trigger] listing[i] is Some && (listing[i].unwrap().kind
            == EntryKind::File ==> extension(file_name(listing[i].unwrap().path@)) == Some(
            seq!['m', 'd'],
        )) && v.name == stem(file_name(listing[i].unwrap().path@))
}

/// A listing holds no file whose extension is other than `md`: each of its
/// items comes from a listed entry that is a folder, a non-file entry or a
/// markdown file, and is named by that entry's stem.
pub proof fn lemma_listings_hold_markdown_files_only(notes: Seq<char>, listing: Seq<Option<Probe>>)
    ensures
        forall|k: int|
            0 <= k < resolved_all(notes, listing).len() ==> from_markdown_or_folder(
                listing,
                #[trigger] resolved_all(notes, listing)[k],
            ),
{
    lemma_listed_items_resolve(notes, listing);
    assert forall|k: int| 0 <= k < resolved_all(notes, listing).len() implies from_markdown_or_folder(
        listing,
        #[trigger] resolved_all(notes, listing)[k],
    ) by {
        let v = resolved_all(notes, listing)[k];
        let i = choose|i: int| 0 <= i < listing.len() && resolved_probe(notes, listing[i]) == Some(v);
        assert(listing[i] is Some);
    }
}

/// A direct entry of the notes directory (no `/` in its name) resolves to
/// an item whose parent path is the empty one, which is placed at the notes
/// directory itself: its parent resolves through the same canonical path as
/// the root item.
pub proof fn lemma_top_level_parent_is_root(notes: Seq<char>, entry: Seq<char>, kind: EntryKind)
    requires
        entry.len() > 0,
        last_index_of(entry, '/') < 0,
        resolved(notes, notes + seq!['/'] + entry, kind) is Some,
    ensures
        parent_of(resolved(notes, notes + seq!['/'] + entry, kind).unwrap().path) == Some(
            Seq::<char>::empty(),
        ),
        joined(notes, Seq::<char>::empty()) == notes,
{
    let c = notes + seq!['/'] + entry;
    assert(relative_to(c, notes) =~= entry);
}

/// `v` placed into `s` after the last item whose name does not come after
/// it by [`name_order`]; an item with an equal name stays before `v`.
pub open spec fn insert_by_name_spec(s: Seq<ItemView>, v: ItemView) -> Seq<ItemView>
    decreases s.len(),
{
    if s.len() == 0 {
        seq![v]
    } else if name_order(s.last().name, v.name) == Ordering::Greater {
        insert_by_name_spec(s.drop_last(), v).push(s.last())
    } else {
        s.push(v)
    }
}

/// `s` sorted by name, one item at a time in order: a stable insertion sort.
pub open spec fn name_sorted(s: Seq<ItemView>) -> Seq<ItemView>
    decreases s.len(),
{
    if s.len() == 0 {
        Seq::empty()
    } else {
        insert_by_name_spec(name_sorted(s.drop_last()), s.last())
    }
}

/// `c` is an entry directly inside `notes`: one segment below it, as a
/// listed entry is when no symlink leads elsewhere.
pub open spec fn direct_entry(notes: Seq<char>, c: Seq<char>) -> bool {
    within(c, notes) && notes.len() < c.len() && last_index_of(c, '/') == notes.len()
}

/// When every entry of a listing of the notes directory is a direct entry,
/// each item of the listing has the empty path as its parent, which is
/// placed at the notes directory itself: the parent of each child of the
/// root resolves through the root's own canonical path.
pub proof fn lemma_children_of_root_have_root_parent(notes: Seq<char>, listing: Seq<Option<Probe>>)
    requires
        forall|i: int|
            0 <= i < listing.len() && #[trigger] listing[i] is Some ==> direct_entry(
                notes,
                listing[i].unwrap().path@,
            ),
    ensures
        forall|k: int|
            0 <= k < resolved_all(notes, listing).len() ==> parent_of(
                (#[trigger] resolved_all(notes, listing)[k]).path,
            ) == Some(Seq::<char>::empty()),
        joined(notes, Seq::<char>::empty()) == notes,
{
    lemma_listed_items_resolve(notes, listing);
    assert forall|k: int| 0 <= k < resolved_all(notes, listing).len() implies parent_of(
        (#[trigger] resolved_all(notes, listing)[k]).path,
    ) == Some(Seq::<char>::empty()) by {
        let v = resolved_all(notes, listing)[k];
        let i = choose|i: int| 0 <= i < listing.len() && resolved_probe(notes, listing[i]) == Some(v);
        assert(listing[i] is Some);
        let c = listing[i].unwrap().path@;
        let rel = relative_to(c, notes);
        assert(v.path == rel);
        lemma_last_index_of_bounds(c, '/');
        lemma_last_index_of_bounds(rel, '/');
        if last_index_of(rel, '/') >= 0 {
            assert(rel[last_index_of(rel, '/')] == c[notes.len() + 1 + last_index_of(rel, '/')]);
        }
        assert(rel.len() > 0);
    }
}

/// Places `x` among `out`, after every item whose name comes before it.
fn insert_by_name<'a>(out: &mut Vec<Item<'a>>, x: Item<'a>)
    requires
        sorted_by_name(views(old(out)@)),
    ensures
        sorted_by_name(views(final(out)@)),
        exists|j: int| 0 <= j <= old(out)@.len() && final(out)@ == old(out)@.insert(j, x),
        views(final(out)@) == insert_by_name_spec(views(old(out)@), x@),
{
    let ghost before = out@;
    let mut j: usize = out.len();
    assert(views(before).subrange(0, j as int) =~= views(before));
    assert(views(before).subrange(j as int, j as int) =~= Seq::<ItemView>::empty());
    while j > 0 && matches!(compare_names(out[j - 1].name.as_str(), x.name.as_str()), Ordering::Greater)
        invariant
            out@ == before,
            j <= out@.len(),
            forall|m: int| j <= m < out@.len() ==> name_order(x.name@, out@[m].name@) == Ordering::Less,
            insert_by_name_spec(views(before), x@) == insert_by_name_spec(
                views(before).subrange(0, j as int),
                x@,
            ) + views(before).subrange(j as int, before.len() as int),
        decreases j,
    {
        proof {
            let vs = views(before);
            let pre = vs.subrange(0, j as int);
            assert(pre.drop_last() =~= vs.subrange(0, j - 1));
            assert(pre.last() == before[j - 1]@);
            assert(seq![vs[j - 1]] + vs.subrange(j as int, before.len() as int) =~= vs.subrange(
                j - 1,
                before.len() as int,
            ));
            assert(insert_by_name_spec(pre.drop_last(), x@).push(pre.last()) + vs.subrange(
                j as int,
                before.len() as int,
            ) =~= insert_by_name_spec(pre.drop_last(), x@) + vs.subrange(j - 1, before.len() as int));
        }
        j = j - 1;
    }
    out.insert(j, x);
    proof {
        let s = views(out@);
        let old_s = views(before);
        assert(s =~= old_s.insert(j as int, x@));
        let pre = old_s.subrange(0, j as int);
        if j > 0 {
            assert(pre.last() == before[j - 1]@);
        }
        assert(s =~= insert_by_name_spec(pre, x@) + old_s.subrange(j as int, before.len() as int));
        assert forall|k: int| 0 <= k < s.len() - 1 implies #[trigger] name_order(s[k].name, s[k + 1].name)
            != Ordering::Greater by {
            if k + 1 < j {
                assert(s[k] == old_s[k] && s[k + 1] == old_s[k + 1]);
                assert(name_order(old_s[k].name, old_s[k + 1].name) != Ordering::Greater);
            } else if k + 1 == j {
                assert(s[k] == old_s[k] && s[k + 1] == x@);
                assert(old_s[k].name == before[k].name@);
                assert(name_order(s[k].name, s[k + 1].name) != Ordering::Greater);
            } else if k == j {
                assert(s[k] == x@ && s[k + 1] == old_s[k]);
                assert(old_s[k].name == before[k].name@);
                assert(name_order(s[k].name, s[k + 1].name) == Ordering::Less);
            } else {
                assert(s[k] == old_s[k - 1] && s[k + 1] == old_s[k]);
                let k0 = k - 1;
                assert(name_order(old_s[k0].name, old_s[k0 + 1].name) != Ordering::Greater);
            }
        }
    }
}

impl<'a> Item<'a> {
    /// The path to canonicalize for this item.
    pub fn candidate_path(&self) -> (r: String)
        ensures
            r@ == joined(self.notebook.notes_view(), self.path@),
    {
        self.notebook.candidate_path(self.path.as_str())
    }

    /// This item's canonical path, kept only while it stays within the notes
    /// directory; `canonical` is the canonical form of [`Item::candidate_path`].
    pub fn fs_path(&self, canonical: Option<String>) -> (r: Option<String>)
        ensures
            r is Some <==> (canonical is Some && sandboxed(
                canonical.unwrap()@,
                self.notebook.notes_view(),
            )),
            r is Some ==> r.unwrap()@ == canonical.unwrap()@,
    {
        self.notebook.to_fs_path(canonical)
    }

    /// The parent of `item`, resolved in this item's notebook: none for the
    /// notes directory itself; otherwise `probe` is of the canonical form of
    /// the parent path (see [`crate::path::parent_path`]).
    pub fn item_parent(&self, item: &Item, probe: Option<Probe>) -> (r: Option<Item<'a>>)
        ensures
            parent_of(item.path@) is None ==> r is None,
            parent_of(item.path@) is Some ==> (r is Some <==> resolved_probe(
                self.notebook.notes_view(),
                probe,
            ) is Some),
            r is Some ==> r.unwrap()@ == resolved_probe(self.notebook.notes_view(), probe).unwrap(),
            r is Some ==> r.unwrap().notebook == self.notebook,
    {
        match parent_path(item.path.as_str()) {
            Some(_) => self.notebook.get_item(probe),
            None => None,
        }
    }

    /// The children of this item, ordered by [`name_order`]: none for a file,
    /// none when the folder could not be listed (`listing` is `None`), else
    /// the items that the listed entries resolve to. Each listed entry is the
    /// probe of its canonical path, or `None` where it did not canonicalize.
    pub fn children(&self, listing: Option<Vec<Option<Probe>>>) -> (r: Vec<Item<'a>>)
        ensures
            !self.is_folder ==> r@.len() == 0,
            listing is None ==> r@.len() == 0,
            self.is_folder && listing is Some ==> views(r@).to_multiset() == resolved_all(
                self.notebook.notes_view(),
                listing.unwrap()@,
            ).to_multiset(),
            self.is_folder && listing is Some ==> views(r@) == name_sorted(
                resolved_all(self.notebook.notes_view(), listing.unwrap()@),
            ),
            sorted_by_name(views(r@)),
            forall|k: int| 0 <= k < r@.len() ==> r@[k].notebook == self.notebook,
    {
        let mut out: Vec<Item<'a>> = Vec::new();
        if !self.is_folder {
            return out;
        }
        let entries = match listing {
            Some(l) => l,
            None => {
                return out;
            },
        };
        let ghost notes = self.notebook.notes_view();
        let mut i: usize = 0;
        assert(views(out@) =~= Seq::empty());
        while i < entries.len()
            invariant
                i <= entries@.len(),
                views(out@).to_multiset() == resolved_all(notes, entries@.subrange(0, i as int)).to_multiset(),
                views(out@) == name_sorted(resolved_all(notes, entries@.subrange(0, i as int))),
                sorted_by_name(views(out@)),
                forall|k: int| 0 <= k < out@.len() ==> out@[k].notebook == self.notebook,
                notes == self.notebook.notes_view(),
            decreases entries@.len() - i,
        {
            let ghost prefix = entries@.subrange(0, i as int);
            assert(entries@.subrange(0, i + 1).drop_last() =~= prefix);
            assert(entries@.subrange(0, i + 1).last() == entries@[i as int]);
            match &entries[i] {
                Some(p) => {
                    match self.notebook.resolve(p) {
                        Some(it) => {
                            let ghost old_out = out@;
                            let ghost v = it@;
                            insert_by_name(&mut out, it);
                            proof {
                                let j = choose|j: int| 0 <= j <= old_out.len() && out@ == old_out.insert(j, it);
                                assert(views(out@) =~= views(old_out).insert(j, v));
                                vstd::seq_lib::to_multiset_insert(views(old_out), j, v);
                                vstd::seq_lib::to_multiset_build(resolved_all(notes, prefix), v);
                                assert(resolved_all(notes, prefix).push(v).drop_last() =~= resolved_all(notes, prefix));
                                assert forall|k: int| 0 <= k < out@.len() implies out@[k].notebook == self.notebook by {
                                    if k < j {
                                        assert(out@[k] == old_out[k]);
                                    } else if k > j {
                                        assert(out@[k] == old_out[k - 1]);
                                    }
                                }
                            }
                        },
                        None => {},
                    }
                },
                None => {},
            }
            i = i + 1;
        }
        assert(entries@.subrange(0, entries@.len() as int) =~= entries@);
        out
    }
}

} // verus!
