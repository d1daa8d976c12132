//! The navigation engine: the current path into the size tree, the selection
//! index, and the operations that arbitrary user input drives them through.
//!
//! Selection moves clamp to the child range (rather than wrapping around).
//! Entering a child directory stores the selection in the left directory's
//! cursor and restores the entered directory's cursor, clamped; exiting pops
//! the path and restores the parent's cursor, which the invariant keeps in
//! range along the whole path.

use vstd::prelude::*;
use crate::order::clone_name;
use crate::sort::{lemma_sort_rows_props, rows_model, rows_of, sort_rows, ChildRow};
use crate::tree::{
    is_prefix_of, lemma_index_of_name_unique, lemma_lookup_push, lemma_path_deep_view,
    lemma_replace_at_effects, lemma_set_cursor_at_effects, lookup, names_strictly_sorted,
    replace_at, set_cursor_at, tree_wf, Entry, Tree,
};

verus! {

/// `sel + delta` clamped into `[0, count - 1]`.
pub open spec fn clamp_move(sel: int, delta: int, count: int) -> int {
    if sel + delta < 0 {
        0
    } else if sel + delta > count - 1 {
        count - 1
    } else {
        sel + delta
    }
}

/// The selection a remembered cursor yields: clamped to the child count, or
/// 0 for an empty directory.
pub open spec fn clamp_cursor(cur: int, count: int) -> int {
    if count == 0 {
        0
    } else if cur < count {
        cur
    } else {
        count - 1
    }
}

/// The navigation engine. It owns the tree after the initial scan and is the
/// only writer afterwards.
pub struct Navigator {
    root: Entry,
    path: Vec<Vec<u8>>,
    selected: usize,
}

impl Navigator {
    /// The model of the owned tree.
    pub closed spec fn tree_model(self) -> Tree {
        self.root.model()
    }

    /// The current path from the root, one name component per step.
    pub closed spec fn path_model(self) -> Seq<Seq<u8>> {
        self.path.deep_view()
    }

    /// The selection index into the current directory's size-sorted rows.
    pub closed spec fn sel_model(self) -> usize {
        self.selected
    }

    /// The directory currently viewed.
    pub open spec fn current(self) -> Tree {
        lookup(self.tree_model(), self.path_model())->Some_0
    }

    /// The number of children of the directory currently viewed.
    pub open spec fn current_count(self) -> int {
        self.current()->Dir_children.len() as int
    }

    /// The navigator's invariant: the tree is well-formed and rooted in a
    /// directory, the current path resolves to a directory, the selection is
    /// in range (or 0 in an empty directory), and every directory along the
    /// path remembers an in-range cursor.
    pub open spec fn wf(self) -> bool {
        &&& tree_wf(self.tree_model())
        &&& self.tree_model() is Dir
        &&& lookup(self.tree_model(), self.path_model()) is Some
        &&& self.current() is Dir
        &&& if self.current_count() == 0 {
            self.sel_model() == 0
        } else {
            self.sel_model() < self.current_count()
        }
        &&& forall|i: int|
            0 <= i < self.path_model().len() ==> {
                let d = #[trigger] lookup(self.tree_model(), self.path_model().take(i));
                &&& d is Some
                &&& d->Some_0 is Dir
                &&& d->Some_0->Dir_cursor < d->Some_0->Dir_children.len()
            }
    }

    /// Takes ownership of a freshly scanned tree; the path starts at the
    /// root, the selection at index 0.
    pub fn new(root: Entry) -> (r: Navigator)
        requires
            root.model() is Dir,
            tree_wf(root.model()),
        ensures
            r.wf(),
            r.tree_model() == root.model(),
            r.path_model() == Seq::<Seq<u8>>::empty(),
            r.sel_model() == 0,
    {
        broadcast use lemma_path_deep_view;

        let nav = Navigator { root, path: Vec::new(), selected: 0 };
        proof {
            assert(nav.path_model() =~= Seq::<Seq<u8>>::empty());
        }
        nav
    }

    /// The selection index.
    pub fn selected_index(&self) -> (r: usize)
        ensures
            r == self.sel_model(),
    {
        self.selected
    }

    /// The current path.
    pub fn current_path(&self) -> (r: &Vec<Vec<u8>>)
        ensures
            r.deep_view() == self.path_model(),
    {
        &self.path
    }

    /// The owned tree.
    pub fn tree(&self) -> (r: &Entry)
        ensures
            r.model() == self.tree_model(),
    {
        &self.root
    }

    /// The directory currently viewed.
    pub fn current_entry(&self) -> (r: &Entry)
        requires
            self.wf(),
        ensures
            r.model() == self.current(),
    {
        match self.root.resolve(&self.path) {
            Ok(e) => e,
            Err(_) => {
                proof {
                    assert(false);
                }
                &self.root
            },
        }
    }

    /// The rows of the current directory, sorted by size descending, equal
    /// sizes in name order.
    pub fn current_rows(&self) -> (r: Vec<ChildRow>)
        requires
            self.wf(),
        ensures
            rows_model(r@) == sort_rows(rows_of(self.current()->Dir_children)),
    {
        match self.current_entry().children_sorted() {
            Ok(rows) => rows,
            Err(_) => {
                proof {
                    assert(false);
                }
                Vec::new()
            },
        }
    }

    /// Moves the selection by `delta`, clamped to the child range; a no-op
    /// when the current directory is empty.
    pub fn move_selection(&mut self, delta: i64)
        requires
            old(self).wf(),
        ensures
            final(self).wf(),
            final(self).tree_model() == old(self).tree_model(),
            final(self).path_model() == old(self).path_model(),
            old(self).current_count() == 0 ==> final(self).sel_model() == old(self).sel_model(),
            old(self).current_count() > 0 ==> final(self).sel_model() == clamp_move(
                old(self).sel_model() as int,
                delta as int,
                old(self).current_count(),
            ),
    {
        let count = self.current_entry().child_count();
        if count == 0 {
            return ;
        }
        self.selected = clamp_index(self.selected, delta as i128, count);
    }

    /// Moves the selection a page at a time, with the same clamping as
    /// single steps; a no-op when the current directory is empty.
    pub fn page_move(&mut self, forward: bool, page_size: usize)
        requires
            old(self).wf(),
        ensures
            final(self).wf(),
            final(self).tree_model() == old(self).tree_model(),
            final(self).path_model() == old(self).path_model(),
            old(self).current_count() == 0 ==> final(self).sel_model() == old(self).sel_model(),
            old(self).current_count() > 0 ==> final(self).sel_model() == clamp_move(
                old(self).sel_model() as int,
                if forward {
                    page_size as int
                } else {
                    -(page_size as int)
                },
                old(self).current_count(),
            ),
    {
        let count = self.current_entry().child_count();
        if count == 0 {
            return ;
        }
        let delta: i128 = if forward {
            page_size as i128
        } else {
            -(page_size as i128)
        };
        self.selected = clamp_index(self.selected, delta, count);
    }

    /// Sets the selection to the first row.
    pub fn jump_first(&mut self)
        requires
            old(self).wf(),
        ensures
            final(self).wf(),
            final(self).tree_model() == old(self).tree_model(),
            final(self).path_model() == old(self).path_model(),
            final(self).sel_model() == 0,
    {
        self.selected = 0;
    }

    /// Enters the selected child when it is a directory: the selection is
    /// stored in the current directory's cursor, the child's name is appended
    /// to the path, and the entered directory's remembered cursor, clamped to
    /// its child count, becomes the selection. Selecting a file, or viewing
    /// an empty directory, leaves the state unchanged.
    pub fn enter(&mut self)
        requires
            old(self).wf(),
        ensures
            final(self).wf(),
            ({
                let rows = sort_rows(rows_of(old(self).current()->Dir_children));
                let sel = old(self).sel_model() as int;
                if sel < rows.len() && rows[sel].2 {
                    let name = rows[sel].0;
                    let entered = lookup(
                        old(self).tree_model(),
                        old(self).path_model().push(name),
                    )->Some_0;
                    &&& final(self).tree_model() == set_cursor_at(
                        old(self).tree_model(),
                        old(self).path_model(),
                        old(self).sel_model(),
                    )
                    &&& final(self).path_model() == old(self).path_model().push(name)
                    &&& final(self).sel_model() == clamp_cursor(
                        entered->Dir_cursor as int,
                        entered->Dir_children.len() as int,
                    )
                } else {
                    *final(self) == *old(self)
                }
            }),
    {
        broadcast use lemma_path_deep_view;

        let ghost t0 = self.root.model();
        let ghost p0 = self.path.deep_view();
        let ghost s0 = self.selected;
        let ghost kids = self.current()->Dir_children;
        let ghost srows = sort_rows(rows_of(kids));

        let rows = self.current_rows();
        proof {
            assert(rows_model(rows@).len() == rows@.len());
            assert(srows.len() == rows@.len());
        }
        if self.selected >= rows.len() {
            return ;
        }
        proof {
            assert(rows_model(rows@)[s0 as int] == rows@[s0 as int].model());
        }
        if !rows[self.selected].is_dir {
            return ;
        }
        let name = clone_name(&rows[self.selected].name);
        let ghost j: int;
        proof {
            assert(name@ == srows[s0 as int].0);
            assert(srows[s0 as int].2);
            crate::tree::lemma_lookup_wf(t0, p0);
            assert(names_strictly_sorted(kids));
            assert forall|a: int, b: int| 0 <= a < b < rows_of(kids).len() implies
                crate::order::lex_lt(
                (#[trigger] rows_of(kids)[a]).0,
                (#[trigger] rows_of(kids)[b]).0,
            ) by {
                assert(rows_of(kids)[a].0 == kids[a].0);
                assert(rows_of(kids)[b].0 == kids[b].0);
            }
            lemma_sort_rows_props(rows_of(kids));
            let row = srows[s0 as int];
            assert(rows_of(kids).contains(row));
            j = choose|j: int| 0 <= j < rows_of(kids).len() && rows_of(kids)[j] == row;
            assert(kids[j].0 == row.0);
            assert((kids[j].1 is Dir) == row.2);
            lemma_index_of_name_unique(kids, j);
            lemma_lookup_push(t0, p0, name@);
            assert(lookup(t0, p0.push(name@)) == Some(kids[j].1));
        }
        let mut tmp = Entry::File { size: 0 };
        core::mem::swap(&mut self.root, &mut tmp);
        proof {
            assert(p0.skip(0) =~= p0);
        }
        let updated = tmp.with_cursor_at(&self.path, 0, self.selected);
        self.root = updated;
        let ghost t1 = set_cursor_at(t0, p0, s0);
        proof {
            lemma_set_cursor_at_effects(t0, p0, s0);
            if p0.len() > 0 {
                assert(is_prefix_of(Seq::<Seq<u8>>::empty(), p0)) by {
                    assert(p0.take(0) =~= Seq::<Seq<u8>>::empty());
                }
                assert(lookup(t1, Seq::<Seq<u8>>::empty()) == Some(t1));
                assert(t1 is Dir);
            }
        }
        self.path.push(name);
        let ghost p1 = p0.push(name@);
        proof {
            assert(self.path.deep_view() =~= p1);
            assert(is_prefix_of(p0, p1)) by {
                assert(p1.take(p0.len() as int) =~= p0);
            }
            assert(lookup(t1, p1) == lookup(t0, p1));
        }
        let entered = match self.root.resolve_dir(&self.path) {
            Ok(e) => e,
            Err(_) => {
                proof {
                    assert(false);
                }
                &self.root
            },
        };
        let count = entered.child_count();
        let cursor = entered.cursor_value();
        self.selected = if count == 0 {
            0
        } else if cursor < count {
            cursor
        } else {
            count - 1
        };
        proof {
            assert forall|i: int| 0 <= i < p1.len() implies {
                let d = #[trigger] lookup(t1, p1.take(i));
                &&& d is Some
                &&& d->Some_0 is Dir
                &&& d->Some_0->Dir_cursor < d->Some_0->Dir_children.len()
            } by {
                if i < p0.len() {
                    assert(p1.take(i) =~= p0.take(i));
                    assert(is_prefix_of(p0.take(i), p0)) by {
                        assert(p0.take(p0.take(i).len() as int) =~= p0.take(i));
                    }
                    assert(lookup(t0, p0.take(i)) is Some);
                } else {
                    assert(i == p0.len());
                    assert(p1.take(i) =~= p0);
                    assert(s0 < srows.len());
                    assert(srows.len() == kids.len());
                }
            }
        }
    }

    /// Leaves the current directory: the selection is stored in its cursor,
    /// the last path component is popped, and the parent's remembered cursor
    /// becomes the selection. A no-op at the root.
    pub fn exit(&mut self)
        requires
            old(self).wf(),
        ensures
            final(self).wf(),
            old(self).path_model().len() == 0 ==> *final(self) == *old(self),
            old(self).path_model().len() > 0 ==> {
                let parent = lookup(
                    old(self).tree_model(),
                    old(self).path_model().drop_last(),
                )->Some_0;
                &&& final(self).tree_model() == set_cursor_at(
                    old(self).tree_model(),
                    old(self).path_model(),
                    old(self).sel_model(),
                )
                &&& final(self).path_model() == old(self).path_model().drop_last()
                &&& final(self).sel_model() == parent->Dir_cursor
            },
    {
        broadcast use lemma_path_deep_view;

        if self.path.len() == 0 {
            return ;
        }
        let ghost t0 = self.root.model();
        let ghost p0 = self.path.deep_view();
        let ghost s0 = self.selected;
        let mut tmp = Entry::File { size: 0 };
        core::mem::swap(&mut self.root, &mut tmp);
        proof {
            assert(p0.skip(0) =~= p0);
        }
        let updated = tmp.with_cursor_at(&self.path, 0, self.selected);
        self.root = updated;
        let ghost t1 = set_cursor_at(t0, p0, s0);
        proof {
            lemma_set_cursor_at_effects(t0, p0, s0);
            assert(is_prefix_of(Seq::<Seq<u8>>::empty(), p0)) by {
                assert(p0.take(0) =~= Seq::<Seq<u8>>::empty());
            }
            assert(lookup(t1, Seq::<Seq<u8>>::empty()) == Some(t1));
            assert(t1 is Dir);
        }
        self.path.pop();
        let ghost p1 = p0.drop_last();
        proof {
            assert(self.path.deep_view() =~= p1);
            assert(is_prefix_of(p1, p0)) by {
                assert(p0.take(p1.len() as int) =~= p1);
            }
            assert(p0.take(p0.len() - 1) =~= p1);
            assert(lookup(t0, p0.take(p0.len() - 1)) is Some);
        }
        let parent = match self.root.resolve_dir(&self.path) {
            Ok(e) => e,
            Err(_) => {
                proof {
                    assert(false);
                }
                &self.root
            },
        };
        self.selected = parent.cursor_value();
        proof {
            assert forall|i: int| 0 <= i < p1.len() implies {
                let d = #[trigger] lookup(t1, p1.take(i));
                &&& d is Some
                &&& d->Some_0 is Dir
                &&& d->Some_0->Dir_cursor < d->Some_0->Dir_children.len()
            } by {
                assert(p1.take(i) =~= p0.take(i));
                assert(is_prefix_of(p0.take(i), p0)) by {
                    assert(p0.take(p0.take(i).len() as int) =~= p0.take(i));
                }
                assert(lookup(t0, p0.take(i)) is Some);
            }
        }
    }

    /// Installs a freshly rescanned subtree for the directory currently
    /// viewed: the new subtree's cursor restarts at 0, the path is unchanged
    /// and still resolves to it, and the selection is clamped to the new
    /// child count.
    pub fn rescan_current(&mut self, sub: Entry)
        requires
            old(self).wf(),
            sub.model() is Dir,
            tree_wf(sub.model()),
        ensures
            final(self).wf(),
            ({
                let fresh = Tree::Dir {
                    size: sub.model()->Dir_size,
                    own_size: sub.model()->Dir_own_size,
                    children: sub.model()->Dir_children,
                    cursor: 0,
                };
                &&& final(self).tree_model() == replace_at(
                    old(self).tree_model(),
                    old(self).path_model(),
                    fresh,
                )
                &&& final(self).path_model() == old(self).path_model()
                &&& lookup(final(self).tree_model(), final(self).path_model()) == Some(fresh)
                &&& final(self).sel_model() == clamp_cursor(
                    old(self).sel_model() as int,
                    fresh->Dir_children.len() as int,
                )
            }),
    {
        broadcast use lemma_path_deep_view;

        let ghost t0 = self.root.model();
        let ghost p0 = self.path.deep_view();
        let fresh = sub.with_cursor(0);
        let ghost fm = fresh.model();
        proof {
            assert(tree_wf(fm)) by {
                assert(fm->Dir_children == sub.model()->Dir_children);
            }
        }
        let mut tmp = Entry::File { size: 0 };
        core::mem::swap(&mut self.root, &mut tmp);
        proof {
            assert(p0.skip(0) =~= p0);
        }
        let updated = tmp.with_replaced_at(&self.path, 0, fresh);
        self.root = updated;
        let ghost t1 = replace_at(t0, p0, fm);
        proof {
            lemma_replace_at_effects(t0, p0, fm);
            if p0.len() > 0 {
                assert(is_prefix_of(Seq::<Seq<u8>>::empty(), p0)) by {
                    assert(p0.take(0) =~= Seq::<Seq<u8>>::empty());
                }
                assert(lookup(t1, Seq::<Seq<u8>>::empty()) == Some(t1));
            }
            assert(t1 is Dir);
        }
        let current = match self.root.resolve_dir(&self.path) {
            Ok(e) => e,
            Err(_) => {
                proof {
                    assert(false);
                }
                &self.root
            },
        };
        let count = current.child_count();
        if count == 0 {
            self.selected = 0;
        } else if self.selected >= count {
            self.selected = count - 1;
        }
        proof {
            assert forall|i: int| 0 <= i < p0.len() implies {
                let d = #[trigger] lookup(t1, p0.take(i));
                &&& d is Some
                &&& d->Some_0 is Dir
                &&& d->Some_0->Dir_cursor < d->Some_0->Dir_children.len()
            } by {
                assert(is_prefix_of(p0.take(i), p0)) by {
                    assert(p0.take(p0.take(i).len() as int) =~= p0.take(i));
                }
                assert(lookup(t0, p0.take(i)) is Some);
            }
        }
    }

    /// Sets the selection to the last row; a no-op when the current
    /// directory is empty.
    pub fn jump_last(&mut self)
        requires
            old(self).wf(),
        ensures
            final(self).wf(),
            final(self).tree_model() == old(self).tree_model(),
            final(self).path_model() == old(self).path_model(),
            old(self).current_count() == 0 ==> final(self).sel_model() == old(self).sel_model(),
            old(self).current_count() > 0 ==> final(self).sel_model() == old(self).current_count()
                - 1,
    {
        let count = self.current_entry().child_count();
        if count == 0 {
            return ;
        }
        self.selected = count - 1;
    }
}

/// Entering a directory and immediately exiting it restores the selection
/// index: [`Navigator::enter`] stores the selection `sel` in the cursor of
/// the directory at `p` before descending to the child, and
/// [`Navigator::exit`] pops the path and reads that very cursor back.
pub proof fn lemma_enter_exit_restores(t: Tree, p: Seq<Seq<u8>>, sel: usize, child: Seq<u8>)
    requires
        match lookup(t, p) {
            Option::Some(d) => d is Dir,
            Option::None => false,
        },
    ensures
        ({
            let t1 = set_cursor_at(t, p, sel);
            let p1 = p.push(child);
            &&& lookup(t1, p1.drop_last()) is Some
            &&& lookup(t1, p1.drop_last())->Some_0 is Dir
            &&& lookup(t1, p1.drop_last())->Some_0->Dir_cursor == sel
        }),
{
    lemma_set_cursor_at_effects(t, p, sel);
    assert(p.push(child).drop_last() =~= p);
}

/// `sel + delta` clamped into `[0, count - 1]`, executably.
fn clamp_index(sel: usize, delta: i128, count: usize) -> (r: usize)
    requires
        count > 0,
        sel < count,
        -0x2_0000_0000_0000_0000 <= delta <= 0x2_0000_0000_0000_0000,
    ensures
        r == clamp_move(sel as int, delta as int, count as int),
        r < count,
{
    let cur = sel as i128;
    let d = delta as i128;
    let sum = cur + d;
    let max = (count - 1) as i128;
    let clamped = if sum < 0 {
        0
    } else if sum > max {
        max
    } else {
        sum
    };
    clamped as usize
}

} // verus!
