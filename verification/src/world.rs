//! Directory entries as they are handed to a walk, and, for the contracts, a file system that holds
//! still: one answer to every question.

use crate::metadata::{FileKind, Lookup};
use crate::paths;
use crate::paths::PathView;
use std::path::PathBuf;
use vstd::prelude::*;

verus! {

/// An entry of a directory.
pub enum DirItem {
    /// The entry could not be read.
    Unreadable,
    /// An entry under this path, with the kind of the entry itself where that could be had.
    Entry { path: PathBuf, kind: Option<FileKind> },
}

/// An entry of a directory, as the contracts see it.
pub enum ItemView {
    Unreadable,
    Entry { path: PathView, kind: Option<FileKind> },
}

impl View for DirItem {
    type V = ItemView;

    open spec fn view(&self) -> ItemView {
        match *self {
            DirItem::Unreadable => ItemView::Unreadable,
            DirItem::Entry { path, kind } => ItemView::Entry { path: paths::path_view(path), kind },
        }
    }
}

pub open spec fn item_views(items: Seq<DirItem>) -> Seq<ItemView> {
    Seq::new(items.len(), |i: int| items[i]@)
}

/// The entries of a directory, or `None` where they cannot be had.
pub open spec fn listing_view(listing: Option<Vec<DirItem>>) -> Option<Seq<ItemView>> {
    match listing {
        Some(items) => Some(item_views(items@)),
        None => None,
    }
}

/// The paths of the entries that could be read.
pub open spec fn entry_paths(items: Seq<ItemView>) -> Seq<PathView>
    decreases items.len(),
{
    if items.len() == 0 {
        Seq::empty()
    } else {
        match items.last() {
            ItemView::Unreadable => entry_paths(items.drop_last()),
            ItemView::Entry { path, .. } => entry_paths(items.drop_last()).push(path),
        }
    }
}

/// The paths of the entries that could be read, if any could.
pub open spec fn listed_paths(listing: Option<Seq<ItemView>>) -> Seq<PathView> {
    match listing {
        Some(items) => entry_paths(items),
        None => Seq::empty(),
    }
}

/// A list of paths that is kept with the next one at the back.
pub open spec fn stacked(paths: Seq<PathBuf>) -> Seq<PathView> {
    paths::path_views(paths.reverse())
}

/// Puts the paths of the entries that could be read in front of those that are pending.
pub(crate) fn push_entries(listing: Option<Vec<DirItem>>, pending: &mut Vec<PathBuf>)
    ensures
        stacked(final(pending)@) == listed_paths(listing_view(listing)) + stacked(old(pending)@),
{
    let ghost before = stacked(pending@);
    match listing {
        None => {
            assert(Seq::<PathView>::empty() + before =~= before);
        },
        Some(items) => {
            let ghost given = item_views(items@);
            let mut rest: Vec<DirItem> = items;
            while rest.len() > 0
                invariant
                    entry_paths(item_views(rest@)) + stacked(pending@) == entry_paths(given) + before,
                decreases rest@.len(),
            {
                let ghost all = item_views(rest@);
                let ghost later = stacked(pending@);
                let last = rest.pop();
                assert(item_views(rest@) =~= all.drop_last());
                if let Some(DirItem::Entry { path, .. }) = last {
                    pending.push(path);
                    assert(stacked(pending@) =~= seq![paths::path_view(path)] + later);
                    assert(entry_paths(all.drop_last()).push(paths::path_view(path)) + later
                        =~= entry_paths(all.drop_last()) + stacked(pending@));
                }
            }
            assert(Seq::<PathView>::empty() + stacked(pending@) =~= stacked(pending@));
        },
    }
}

/// A file system that holds still.
pub struct World {
    /// What is found under a path.
    pub lookup: spec_fn(PathView) -> Lookup,
    /// The lines of the ignore file in a directory, if it has one.
    pub ignore_file: spec_fn(PathView) -> Option<Seq<Seq<char>>>,
    /// The entries of a directory, if they can be had.
    pub listing: spec_fn(PathView) -> Option<Seq<ItemView>>,
    /// Whether a directory has a `.git` entry.
    pub has_git: spec_fn(PathView) -> bool,
    /// What `git status --porcelain` prints in a directory, if it succeeds.
    pub status: spec_fn(PathView) -> Option<Seq<u8>>,
}

/// The items in the opposite order.
pub(crate) fn reversed<T>(items: Vec<T>) -> (backwards: Vec<T>)
    ensures
        backwards@ == items@.reverse(),
{
    let ghost whole = items@;
    let mut rest: Vec<T> = items;
    let mut backwards: Vec<T> = Vec::new();
    while rest.len() > 0
        invariant
            rest@.len() + backwards@.len() == whole.len(),
            rest@ == whole.take(rest@.len() as int),
            forall|k: int|
                0 <= k < backwards@.len() ==> #[trigger] backwards@[k] == whole[whole.len() - 1
                    - k],
        decreases rest@.len(),
    {
        if let Some(last) = rest.pop() {
            backwards.push(last);
        }
        assert(rest@ =~= whole.take(rest@.len() as int));
    }
    assert(backwards@ =~= whole.reverse());
    backwards
}

} // verus!
