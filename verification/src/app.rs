//! The review state around the normalizer: which files get a proposed
//! rename, which proposals are selected, and where the cursor stands.
//!
//! Everything here is pure state logic. The surrounding shell lists the
//! files of a directory, hands them in as `(name, path)` pairs, performs
//! the selected renames, and reports each success back.

use vstd::prelude::*;

use crate::cleaner::{clean_spec, NameCleaner};
use crate::rename_item::RenameItem;

verus! {

#[derive(PartialEq, Eq, Structural)]
pub enum AppMode {
    Scanning,
    Reviewing,
    Confirming,
    Processing,
}

pub struct App {
    pub items: Vec<RenameItem>,
    pub selected_index: usize,
    pub cleaner: NameCleaner,
    pub mode: AppMode,
    pub should_quit: bool,
}

/// The indices of `files` whose name the cleaner would change.
pub open spec fn kept_indices(files: Seq<(String, std::path::PathBuf)>) -> Seq<int> {
    Seq::new(files.len(), |i: int| i).filter(
        |i: int| clean_spec(files[i].0@) != files[i].0@,
    )
}

impl App {
    /// The cleaner's pattern tables are well formed.
    pub open spec fn wf(&self) -> bool {
        self.cleaner.wf()
    }

    /// A fresh app: no items yet, in scanning mode, waiting for the shell
    /// to hand in a directory listing.
    pub fn new() -> (r: App)
        ensures
            r.wf(),
            r.items@.len() == 0,
            r.selected_index == 0,
            r.mode == AppMode::Scanning,
            !r.should_quit,
    {
        App {
            items: Vec::new(),
            selected_index: 0,
            cleaner: NameCleaner::new(),
            mode: AppMode::Scanning,
            should_quit: false,
        }
    }

    /// Takes a directory listing and keeps, in order, the files whose
    /// cleaned name differs from the current one, each selected and paired
    /// with its proposed name; then the app is reviewing.
    pub fn ingest_scan(&mut self, files: Vec<(String, std::path::PathBuf)>)
        requires
            old(self).wf(),
        ensures
            final(self).wf(),
            final(self).mode == AppMode::Reviewing,
            final(self).selected_index == old(self).selected_index,
            final(self).should_quit == old(self).should_quit,
            final(self).cleaner == old(self).cleaner,
            final(self).items@.len() == kept_indices(files@).len(),
            forall|k: int|
                #![trigger final(self).items@[k]]
                0 <= k < final(self).items@.len() ==> {
                    let j = kept_indices(files@)[k];
                    &&& final(self).items@[k].old_name == files@[j].0
                    &&& final(self).items@[k].new_name@ == clean_spec(files@[j].0@)
                    &&& final(self).items@[k].path == files@[j].1
                    &&& final(self).items@[k].selected
                },
    {
        self.mode = AppMode::Scanning;
        let ghost fs = files@;
        proof {
            assert(files.len() == fs.len());
        }
        let mut new_items: Vec<RenameItem> = Vec::new();
        let mut i: usize = 0;
        let mut files = files;
        proof {
            assert(Seq::new(fs.take(0).len(), |i: int| i).filter(
                |i: int| clean_spec(fs.take(0)[i].0@) != fs.take(0)[i].0@,
            ) =~= Seq::<int>::empty());
        }
        while files.len() > 0
            invariant
                self.cleaner.wf(),
                fs.len() <= usize::MAX,
                i + files@.len() == fs.len(),
                files@ =~= fs.skip(i as int),
                new_items@.len() == kept_indices(fs.take(i as int)).len(),
                forall|k: int|
                    #![trigger new_items@[k]]
                    0 <= k < new_items@.len() ==> {
                        let j = kept_indices(fs.take(i as int))[k];
                        &&& new_items@[k].old_name == fs[j].0
                        &&& new_items@[k].new_name@ == clean_spec(fs[j].0@)
                        &&& new_items@[k].path == fs[j].1
                        &&& new_items@[k].selected
                    },
            decreases files@.len(),
        {
            let (name, path) = files.remove(0);
            assert((name, path) == fs[i as int]);
            let cleaned = self.cleaner.clean(name.as_str());
            let differs = !strings_equal(&name, &cleaned);
            proof {
                lemma_kept_indices_step(fs, i as int);
            }
            if differs {
                new_items.push(RenameItem { old_name: name, new_name: cleaned, selected: true, path });
            }
            i = i + 1;
            proof {
                assert(files@ =~= fs.skip(i as int));
            }
        }
        proof {
            assert(fs.take(fs.len() as int) =~= fs);
        }
        self.items = new_items;
        self.mode = AppMode::Reviewing;
    }

    /// Asks for confirmation, but only when at least one item is selected.
    pub fn confirm_rename(&mut self)
        ensures
            *final(self) == if exists|k: int|
                0 <= k < old(self).items@.len() && old(self).items@[k].selected {
                App { mode: AppMode::Confirming, ..*old(self) }
            } else {
                *old(self)
            },
    {
        if any_selected(&self.items) {
            self.mode = AppMode::Confirming;
        }
    }

    /// Returns to reviewing without renaming anything.
    pub fn cancel_confirm(&mut self)
        ensures
            *final(self) == (App { mode: AppMode::Reviewing, ..*old(self) }),
    {
        self.mode = AppMode::Reviewing;
    }

    /// The indices of the items whose rename the user kept selected, in
    /// order; the shell performs exactly these renames.
    pub fn rename_targets(&self) -> (r: Vec<usize>)
        ensures
            r@.map_values(|u: usize| u as int) =~= Seq::new(
                self.items@.len(),
                |i: int| i,
            ).filter(|i: int| self.items@[i].selected),
    {
        let mut r: Vec<usize> = Vec::new();
        let mut i: usize = 0;
        proof {
            assert(Seq::new(0, |i: int| i).filter(|i: int| self.items@[i].selected)
                =~= Seq::<int>::empty());
        }
        while i < self.items.len()
            invariant
                0 <= i <= self.items@.len(),
                r@.map_values(|u: usize| u as int) =~= Seq::new(i as nat, |k: int| k).filter(
                    |k: int| self.items@[k].selected,
                ),
            decreases self.items@.len() - i,
        {
            proof {
                assert(Seq::new((i + 1) as nat, |k: int| k).drop_last() =~= Seq::new(
                    i as nat,
                    |k: int| k,
                ));
                reveal_with_fuel(Seq::filter, 2);
            }
            if self.items[i].selected {
                r.push(i);
            }
            proof {
                assert(r@.map_values(|u: usize| u as int) =~= Seq::new((i + 1) as nat, |k: int| k).filter(
                    |k: int| self.items@[k].selected,
                ));
            }
            i = i + 1;
        }
        r
    }

    /// Marks the start of the rename pass.
    pub fn begin_rename(&mut self)
        ensures
            *final(self) == (App { mode: AppMode::Processing, ..*old(self) }),
    {
        self.mode = AppMode::Processing;
    }

    /// Marks the end of the rename pass.
    pub fn finish_rename(&mut self)
        ensures
            *final(self) == (App { mode: AppMode::Reviewing, ..*old(self) }),
    {
        self.mode = AppMode::Reviewing;
    }

    /// Records one successful rename: the item now carries its new name
    /// and path and is no longer selected; every other item is unchanged.
    pub fn record_rename(&mut self, i: usize, new_path: std::path::PathBuf)
        requires
            i < old(self).items@.len(),
        ensures
            final(self).items@.len() == old(self).items@.len(),
            final(self).items@[i as int].old_name@ == old(self).items@[i as int].new_name@,
            final(self).items@[i as int].new_name == old(self).items@[i as int].new_name,
            final(self).items@[i as int].path == new_path,
            !final(self).items@[i as int].selected,
            forall|k: int|
                0 <= k < old(self).items@.len() && k != i ==> final(self).items@[k] == old(
                    self,
                ).items@[k],
            final(self).selected_index == old(self).selected_index,
            final(self).cleaner == old(self).cleaner,
            final(self).mode == old(self).mode,
            final(self).should_quit == old(self).should_quit,
    {
        let new_name = self.items[i].new_name.clone();
        let old_item = self.items.remove(i);
        let updated = RenameItem {
            old_name: new_name,
            new_name: old_item.new_name,
            selected: false,
            path: new_path,
        };
        self.items.insert(i, updated);
        proof {
            assert(final(self).items@[i as int].old_name@ == old(self).items@[i as int].new_name@);
        }
    }

    /// Moves the cursor down, wrapping at the end; does nothing on an
    /// empty list.
    pub fn next(&mut self)
        ensures
            final(self).items == old(self).items,
            final(self).cleaner == old(self).cleaner,
            final(self).mode == old(self).mode,
            final(self).should_quit == old(self).should_quit,
            old(self).items@.len() == 0 ==> final(self).selected_index == old(
                self,
            ).selected_index,
            old(self).items@.len() > 0 ==> final(self).selected_index == (old(
                self,
            ).selected_index + 1) as int % old(self).items@.len() as int,
    {
        if self.items.len() > 0 {
            let len = self.items.len();
            let wrapped = self.selected_index % len;
            proof {
                vstd::arithmetic::div_mod::lemma_add_mod_noop(
                    old(self).selected_index as int,
                    1,
                    len as int,
                );
                if len > 1 {
                    vstd::arithmetic::div_mod::lemma_small_mod(1, len as nat);
                }
            }
            self.selected_index = (wrapped + 1) % len;
        }
    }

    /// Moves the cursor up, wrapping at the start; does nothing on an
    /// empty list.
    pub fn previous(&mut self)
        ensures
            final(self).items == old(self).items,
            final(self).cleaner == old(self).cleaner,
            final(self).mode == old(self).mode,
            final(self).should_quit == old(self).should_quit,
            old(self).items@.len() == 0 ==> final(self).selected_index == old(
                self,
            ).selected_index,
            old(self).items@.len() > 0 ==> final(self).selected_index == (if old(
                self,
            ).selected_index == 0 {
                (old(self).items@.len() - 1) as int
            } else {
                old(self).selected_index - 1
            }),
    {
        if self.items.len() > 0 {
            self.selected_index = if self.selected_index == 0 {
                self.items.len() - 1
            } else {
                self.selected_index - 1
            };
        }
    }

    /// Flips the selection of the item under the cursor; does nothing when
    /// the cursor is out of range.
    pub fn toggle_selection(&mut self)
        ensures
            final(self).selected_index == old(self).selected_index,
            final(self).cleaner == old(self).cleaner,
            final(self).mode == old(self).mode,
            final(self).should_quit == old(self).should_quit,
            final(self).items@.len() == old(self).items@.len(),
            old(self).selected_index >= old(self).items@.len() ==> final(self).items == old(
                self,
            ).items,
            old(self).selected_index < old(self).items@.len() ==> {
                let i = old(self).selected_index as int;
                &&& final(self).items@[i].selected == !old(self).items@[i].selected
                &&& final(self).items@[i].old_name == old(self).items@[i].old_name
                &&& final(self).items@[i].new_name == old(self).items@[i].new_name
                &&& final(self).items@[i].path == old(self).items@[i].path
                &&& forall|k: int|
                    0 <= k < old(self).items@.len() && k != i ==> final(self).items@[k] == old(
                        self,
                    ).items@[k]
            },
    {
        let i = self.selected_index;
        if i < self.items.len() {
            let item = self.items.remove(i);
            let flipped = RenameItem { selected: !item.selected, ..item };
            self.items.insert(i, flipped);
        }
    }
}

/// Whether any item is still selected.
fn any_selected(items: &Vec<RenameItem>) -> (r: bool)
    ensures
        r == exists|k: int| 0 <= k < items@.len() && items@[k].selected,
{
    let mut i: usize = 0;
    while i < items.len()
        invariant
            0 <= i <= items@.len(),
            forall|k: int| 0 <= k < i ==> !items@[k].selected,
        decreases items@.len() - i,
    {
        if items[i].selected {
            return true;
        }
        i = i + 1;
    }
    false
}

/// Whether two strings hold the same characters.
fn strings_equal(a: &String, b: &String) -> (r: bool)
    ensures
        r == (a@ == b@),
{
    a.eq(b)
}

/// Filtering a listing one file further keeps the accumulated items and
/// adds the new index exactly when the cleaned name differs.
proof fn lemma_kept_indices_step(fs: Seq<(String, std::path::PathBuf)>, i: int)
    requires
        0 <= i < fs.len(),
    ensures
        clean_spec(fs[i].0@) != fs[i].0@ ==> kept_indices(fs.take(i + 1)) =~= kept_indices(
            fs.take(i),
        ) + seq![i],
        clean_spec(fs[i].0@) == fs[i].0@ ==> kept_indices(fs.take(i + 1)) =~= kept_indices(
            fs.take(i),
        ),
{
    let pre = fs.take(i);
    let cur = fs.take(i + 1);
    let idx_pre = Seq::new(pre.len(), |k: int| k);
    let idx_cur = Seq::new(cur.len(), |k: int| k);
    assert(idx_cur.drop_last() =~= idx_pre);
    reveal_with_fuel(Seq::filter, 2);
    assert(idx_pre.filter(|k: int| clean_spec(pre[k].0@) != pre[k].0@) =~= idx_pre.filter(
        |k: int| clean_spec(cur[k].0@) != cur[k].0@,
    )) by {
        lemma_filter_congruent(idx_pre, pre, cur);
    }
}

/// Two listings that agree on a prefix filter that prefix identically.
proof fn lemma_filter_congruent(
    idx: Seq<int>,
    a: Seq<(String, std::path::PathBuf)>,
    b: Seq<(String, std::path::PathBuf)>,
)
    requires
        forall|k: int| 0 <= k < idx.len() ==> 0 <= #[trigger] idx[k] < a.len(),
        forall|k: int| 0 <= k < a.len() ==> a[k] == b[k],
        a.len() <= b.len(),
    ensures
        idx.filter(|k: int| clean_spec(a[k].0@) != a[k].0@) == idx.filter(
            |k: int| clean_spec(b[k].0@) != b[k].0@,
        ),
    decreases idx.len(),
{
    reveal_with_fuel(Seq::filter, 2);
    if idx.len() > 0 {
        lemma_filter_congruent(idx.drop_last(), a, b);
    }
}

} // verus!
