//! Assembling scanned subtrees, and the process-wide admission counter that
//! bounds how many scan tasks run concurrently.
//!
//! The filesystem walk itself lives outside the library; it reports each
//! entry's name and metadata length, and these builders fold them into a
//! well-formed, size-consistent [`Entry`] tree.

use vstd::prelude::*;
use crate::order::{lex_lt, name_lt, name_eq};
use crate::tree::{
    kids_model, lemma_kids_model, names_strictly_sorted, sizes_consistent, sum_sizes, tree_wf,
    Child, Entry, Tree,
};

verus! {

/// Relies on `num_cpus::get`: the number of available processing units,
/// documented to always be at least 1.
#[verifier::external_body]
fn available_parallelism() -> (r: usize)
    ensures
        1 <= r,
{
    num_cpus::get()
}

/// The process-wide admission counter for concurrent scan tasks.
///
/// The scanning flow of control that created the counter counts as one active
/// task; a further task may be spawned only while the count is below the cap,
/// so the count never exceeds the cap. Checking and incrementing happen in one
/// operation, so the bound holds without any transient excess.
pub struct TaskCounter {
    active: usize,
    cap: usize,
}

impl TaskCounter {
    /// How many scan tasks are currently counted as active.
    pub closed spec fn active_spec(self) -> usize {
        self.active
    }

    /// The admission cap the counter was created with.
    pub closed spec fn cap_spec(self) -> usize {
        self.cap
    }

    /// The counter's invariant: at least the creating task is active, and the
    /// active count never exceeds the cap.
    pub open spec fn wf(self) -> bool {
        1 <= self.active_spec() <= self.cap_spec()
    }

    /// Creates a counter with the given admission cap.
    pub fn new(cap: usize) -> (r: TaskCounter)
        requires
            cap >= 1,
        ensures
            r.wf(),
            r.active_spec() == 1,
            r.cap_spec() == cap,
    {
        TaskCounter { active: 1, cap }
    }

    /// Creates a counter whose cap is the number of available processing
    /// units.
    pub fn for_this_machine() -> (r: TaskCounter)
        ensures
            r.wf(),
            r.active_spec() == 1,
    {
        TaskCounter { active: 1, cap: available_parallelism() }
    }

    /// Admits one more concurrent task if the cap allows it; the caller runs
    /// the work inline when the answer is `false`.
    pub fn try_admit(&mut self) -> (admitted: bool)
        requires
            old(self).wf(),
        ensures
            final(self).wf(),
            final(self).cap_spec() == old(self).cap_spec(),
            admitted ==> old(self).active_spec() < old(self).cap_spec()
                && final(self).active_spec() == old(self).active_spec() + 1,
            !admitted ==> old(self).active_spec() == old(self).cap_spec()
                && *final(self) == *old(self),
    {
        if self.active < self.cap {
            self.active = self.active + 1;
            true
        } else {
            false
        }
    }

    /// Reports an admitted task as finished.
    pub fn release(&mut self)
        requires
            old(self).wf(),
            old(self).active_spec() >= 2,
        ensures
            final(self).wf(),
            final(self).cap_spec() == old(self).cap_spec(),
            final(self).active_spec() == old(self).active_spec() - 1,
    {
        self.active = self.active - 1;
    }

    /// The current active count, for instrumentation.
    pub fn active(&self) -> (r: usize)
        ensures
            r == self.active_spec(),
    {
        self.active
    }

    /// The admission cap.
    pub fn cap(&self) -> (r: usize)
        ensures
            r == self.cap_spec(),
    {
        self.cap
    }
}

/// The child list after inserting `c` at its place in name order, replacing
/// an existing child of the same name.
pub open spec fn insert_named(s: Seq<(Seq<u8>, Tree)>, c: (Seq<u8>, Tree)) -> Seq<(Seq<u8>, Tree)>
    decreases s.len(),
{
    if s.len() == 0 {
        seq![c]
    } else if lex_lt(c.0, s[0].0) {
        seq![c] + s
    } else if c.0 == s[0].0 {
        seq![c] + s.drop_first()
    } else {
        seq![s[0]] + insert_named(s.drop_first(), c)
    }
}

/// Where `insert_named` puts the new child: before the first name that is not
/// smaller than its own.
proof fn lemma_insert_named_at(s: Seq<(Seq<u8>, Tree)>, c: (Seq<u8>, Tree), i: int)
    requires
        0 <= i <= s.len(),
        forall|k: int| 0 <= k < i ==> lex_lt(#[trigger] s[k].0, c.0),
        i < s.len() ==> !lex_lt(s[i].0, c.0),
    ensures
        i < s.len() && s[i].0 == c.0 ==> insert_named(s, c) == s.update(i, c),
        (i == s.len() || s[i].0 != c.0) ==> insert_named(s, c) == s.take(i) + seq![c] + s.skip(i),
    decreases s.len(),
{
    if s.len() == 0 {
        assert(insert_named(s, c) =~= s.take(0) + seq![c] + s.skip(0));
    } else if i == 0 {
        if !lex_lt(c.0, s[0].0) && s[0].0 != c.0 {
            crate::order::lemma_lex_lt_connected(c.0, s[0].0);
        }
        if s[0].0 == c.0 {
            assert(insert_named(s, c) =~= s.update(0, c));
        } else {
            assert(insert_named(s, c) =~= s.take(0) + seq![c] + s.skip(0));
        }
    } else {
        assert(lex_lt(s[0].0, c.0));
        crate::order::lemma_lex_lt_irreflexive(s[0].0);
        crate::order::lemma_lex_lt_asymmetric(s[0].0, c.0);
        let t = s.drop_first();
        assert forall|k: int| 0 <= k < i - 1 implies lex_lt(#[trigger] t[k].0, c.0) by {
            assert(t[k] == s[k + 1]);
        }
        assert(i - 1 < t.len() ==> t[i - 1] == s[i]);
        lemma_insert_named_at(t, c, i - 1);
        if i < s.len() && s[i].0 == c.0 {
            assert(insert_named(s, c) =~= s.update(i, c));
        } else {
            assert(insert_named(s, c) =~= s.take(i) + seq![c] + s.skip(i));
        }
    }
}

/// Inserts a scanned child into a name-ordered child list, keeping the order;
/// a child of the same name is replaced.
#[verifier::loop_isolation(false)]
pub fn insert_child(children: &mut Vec<Child>, child: Child)
    requires
        names_strictly_sorted(kids_model(old(children)@)),
    ensures
        kids_model(final(children)@) == insert_named(
            kids_model(old(children)@),
            (child.name@, child.entry.model()),
        ),
        names_strictly_sorted(kids_model(final(children)@)),
{
    broadcast use lemma_kids_model;

    let ghost s = kids_model(old(children)@);
    let ghost c = (child.name@, child.entry.model());
    let mut i: usize = 0;
    while i < children.len() && name_lt(&children[i].name, &child.name)
        invariant
            0 <= i <= children@.len(),
            forall|k: int| 0 <= k < i ==> lex_lt(#[trigger] s[k].0, c.0),
        decreases children@.len() - i,
    {
        i = i + 1;
    }
    proof {
        lemma_insert_named_at(s, c, i as int);
    }
    if i < children.len() && name_eq(&children[i].name, &child.name) {
        children.remove(i);
        children.insert(i, child);
        proof {
            assert(kids_model(children@) =~= s.update(i as int, c));
        }
    } else {
        children.insert(i, child);
        proof {
            assert(kids_model(children@) =~= s.take(i as int) + seq![c] + s.skip(i as int));
        }
    }
    proof {
        let out = kids_model(children@);
        assert forall|p: int, q: int| 0 <= p < q < out.len() implies lex_lt(
            #[trigger] out[p].0,
            #[trigger] out[q].0,
        ) by {
            lemma_insert_sorted_helper(s, c, i as int, out, p, q);
        }
    }
}

/// Sortedness of the result of one insertion, position by position.
proof fn lemma_insert_sorted_helper(
    s: Seq<(Seq<u8>, Tree)>,
    c: (Seq<u8>, Tree),
    i: int,
    out: Seq<(Seq<u8>, Tree)>,
    p: int,
    q: int,
)
    requires
        names_strictly_sorted(s),
        0 <= i <= s.len(),
        forall|k: int| 0 <= k < i ==> lex_lt(#[trigger] s[k].0, c.0),
        i < s.len() ==> !lex_lt(s[i].0, c.0),
        if i < s.len() && s[i].0 == c.0 {
            out == s.update(i, c)
        } else {
            out == s.take(i) + seq![c] + s.skip(i)
        },
        0 <= p < q < out.len(),
    ensures
        lex_lt(out[p].0, out[q].0),
{
    if i < s.len() && s[i].0 == c.0 {
        if p == i {
            assert(out[q].0 == s[q].0);
            assert(lex_lt(s[i].0, s[q].0));
        } else if q == i {
            assert(out[p].0 == s[p].0);
            assert(lex_lt(s[p].0, s[i].0));
        } else {
            assert(out[p].0 == s[p].0 && out[q].0 == s[q].0);
        }
    } else {
        if i < s.len() {
            assert(s[i].0 != c.0);
            if !lex_lt(c.0, s[i].0) {
                crate::order::lemma_lex_lt_connected(c.0, s[i].0);
            }
            assert(lex_lt(c.0, s[i].0));
        }
        if q < i {
            assert(out[p] == s[p] && out[q] == s[q]);
        } else if p < i && q == i {
            assert(out[p] == s[p] && out[q] == c);
        } else if p < i && q > i {
            assert(out[p] == s[p] && out[q] == s[q - 1]);
            if q - 1 > p {
                assert(lex_lt(s[p].0, s[q - 1].0));
            } else {
                assert(q - 1 == p && p == i - 1);
                assert(lex_lt(s[p].0, c.0));
                crate::order::lemma_lex_lt_transitive(s[p].0, c.0, s[i].0);
            }
        } else if p == i && q > i {
            assert(out[p] == c && out[q] == s[q - 1]);
            assert(lex_lt(c.0, s[i].0));
            if q - 1 > i {
                crate::order::lemma_lex_lt_transitive(c.0, s[i].0, s[q - 1].0);
            }
        } else {
            assert(p > i && q > i);
            assert(out[p] == s[p - 1] && out[q] == s[q - 1]);
            assert(lex_lt(s[p - 1].0, s[q - 1].0));
        }
    }
}

/// Creates a file leaf with the filesystem-reported length.
pub fn make_file(size: u64) -> (r: Entry)
    ensures
        r.model() == (Tree::File { size }),
        tree_wf(r.model()),
        sizes_consistent(r.model()),
{
    Entry::File { size }
}

/// Sums the stored sizes of a child list; `None` when the total does not fit
/// in a `u64`.
#[verifier::loop_isolation(false)]
pub fn sum_contents(children: &Vec<Child>) -> (r: Option<u64>)
    ensures
        match r {
            Some(total) => total as int == sum_sizes(kids_model(children@)),
            None => sum_sizes(kids_model(children@)) > u64::MAX,
        },
{
    broadcast use lemma_kids_model;

    let ghost kids = kids_model(children@);
    let mut total: u64 = 0;
    let mut i: usize = 0;
    proof {
        assert(kids.take(0) =~= Seq::<(Seq<u8>, Tree)>::empty());
    }
    while i < children.len()
        invariant
            0 <= i <= children@.len(),
            total as int == sum_sizes(kids.take(i as int)),
        decreases children@.len() - i,
    {
        proof {
            assert(kids.take(i + 1).drop_last() =~= kids.take(i as int));
            assert(kids.take(i + 1).last() == kids[i as int]);
        }
        let size_i = children[i].entry.size();
        match total.checked_add(size_i) {
            Some(t) => {
                total = t;
            },
            None => {
                proof {
                    lemma_sum_sizes_prefix(kids, i + 1);
                }
                return None;
            },
        }
        i = i + 1;
    }
    proof {
        assert(kids.take(i as int) =~= kids);
    }
    Some(total)
}

/// A prefix of a child list never sums to more than the whole list.
proof fn lemma_sum_sizes_prefix(s: Seq<(Seq<u8>, Tree)>, i: int)
    requires
        0 <= i <= s.len(),
    ensures
        sum_sizes(s.take(i)) <= sum_sizes(s),
    decreases s.len(),
{
    if i < s.len() {
        assert(s.take(i) =~= s.drop_last().take(i));
        lemma_sum_sizes_prefix(s.drop_last(), i);
    } else {
        assert(s.take(i) =~= s);
    }
}

/// Builds a directory node from its own metadata length and its scanned
/// children; the cursor starts at 0. `None` when the aggregate size does not
/// fit in a `u64`.
pub fn make_directory(own_size: u64, children: Vec<Child>) -> (r: Option<Entry>)
    ensures
        match r {
            Some(e) => {
                &&& e.model() == (Tree::Dir {
                    size: (own_size + sum_sizes(kids_model(children@))) as u64,
                    own_size,
                    children: kids_model(children@),
                    cursor: 0,
                })
                &&& own_size + sum_sizes(kids_model(children@)) <= u64::MAX
                &&& (names_strictly_sorted(kids_model(children@)) && (forall|i: int|
                    0 <= i < children@.len() ==> tree_wf(
                        #[trigger] children@[i].entry.model(),
                    ))) ==> tree_wf(e.model())
                &&& (forall|i: int|
                    0 <= i < children@.len() ==> sizes_consistent(
                        #[trigger] children@[i].entry.model(),
                    )) ==> sizes_consistent(e.model())
            },
            None => own_size + sum_sizes(kids_model(children@)) > u64::MAX,
        },
{
    broadcast use lemma_kids_model;

    let total = match sum_contents(&children) {
        Some(t) => t,
        None => {
            return None;
        },
    };
    match own_size.checked_add(total) {
        Some(size) => Some(Entry::Directory { size, own_size, children, cursor: 0 }),
        None => None,
    }
}

} // verus!
