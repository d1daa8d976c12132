//! The size-descending, name-stable ordering in which a directory's children
//! are displayed and addressed by the selection index.

use vstd::prelude::*;
use crate::order::{clone_name, lex_lt};
use crate::tree::{kids_model, lemma_kids_model, names_strictly_sorted, Entry, Tree, TreeError};

verus! {

/// A display row for one child: its name, its stored size, and whether it is
/// a directory.
#[derive(Debug)]
pub struct ChildRow {
    pub name: Vec<u8>,
    pub size: u64,
    pub is_dir: bool,
}

/// The model of a row.
pub type Row = (Seq<u8>, u64, bool);

impl ChildRow {
    /// The model of this row.
    pub open spec fn model(self) -> Row {
        (self.name@, self.size, self.is_dir)
    }
}

/// The models of a vector of rows.
pub open spec fn rows_model(s: Seq<ChildRow>) -> Seq<Row> {
    Seq::new(s.len(), |i: int| s[i].model())
}

/// The display rows of a child list, in stored (name) order.
pub open spec fn rows_of(kids: Seq<(Seq<u8>, Tree)>) -> Seq<Row> {
    Seq::new(kids.len(), |i: int| (kids[i].0, kids[i].1.size_of(), kids[i].1 is Dir))
}

/// `x` placed into a size-descending list: before the first element whose
/// size does not exceed `x`'s, so that `x` precedes every equal-size element
/// that was inserted before it.
pub open spec fn insert_row(x: Row, s: Seq<Row>) -> Seq<Row>
    decreases s.len(),
{
    if s.len() == 0 {
        seq![x]
    } else if x.1 >= s[0].1 {
        seq![x] + s
    } else {
        seq![s[0]] + insert_row(x, s.drop_first())
    }
}

/// Insertion sort by size, descending. Elements are inserted back to front,
/// so an earlier element is placed before every later element of equal size:
/// the sort is stable.
pub open spec fn sort_rows(s: Seq<Row>) -> Seq<Row>
    decreases s.len(),
{
    if s.len() == 0 {
        Seq::empty()
    } else {
        insert_row(s[0], sort_rows(s.drop_first()))
    }
}

/// Sizes never increase along the sequence.
pub open spec fn sorted_size_desc(s: Seq<Row>) -> bool {
    forall|p: int, q: int| 0 <= p < q < s.len() ==> (#[trigger] s[p]).1 >= (#[trigger] s[q]).1
}

/// Equal-size rows stand in ascending name order.
pub open spec fn stable_by_name(s: Seq<Row>) -> bool {
    forall|p: int, q: int|
        0 <= p < q < s.len() && (#[trigger] s[p]).1 == (#[trigger] s[q]).1 ==> lex_lt(
            s[p].0,
            s[q].0,
        )
}

/// Names strictly ascend along the sequence.
pub open spec fn names_ascending(s: Seq<Row>) -> bool {
    forall|p: int, q: int| 0 <= p < q < s.len() ==> lex_lt((#[trigger] s[p]).0, (#[trigger] s[q]).0)
}

/// What one insertion guarantees: length, elements, order, and stability.
proof fn lemma_insert_row_props(x: Row, r: Seq<Row>)
    requires
        sorted_size_desc(r),
        stable_by_name(r),
        forall|k: int| 0 <= k < r.len() && (#[trigger] r[k]).1 == x.1 ==> lex_lt(x.0, r[k].0),
    ensures
        insert_row(x, r).len() == r.len() + 1,
        forall|k: int|
            0 <= k < insert_row(x, r).len() ==> (#[trigger] insert_row(x, r)[k]) == x
                || r.contains(insert_row(x, r)[k]),
        sorted_size_desc(insert_row(x, r)),
        stable_by_name(insert_row(x, r)),
    decreases r.len(),
{
    let out = insert_row(x, r);
    if r.len() == 0 {
        assert(out =~= seq![x]);
    } else if x.1 >= r[0].1 {
        assert(out =~= seq![x] + r);
        assert forall|k: int| 0 <= k < out.len() implies (#[trigger] out[k]) == x || r.contains(
            out[k],
        ) by {
            if k > 0 {
                assert(out[k] == r[k - 1]);
            }
        }
        assert forall|p: int, q: int| 0 <= p < q < out.len() implies (#[trigger] out[p]).1 >= (
        #[trigger] out[q]).1 by {
            if p == 0 {
                assert(out[q] == r[q - 1]);
                if q - 1 > 0 {
                    assert(r[0].1 >= r[q - 1].1);
                }
            } else {
                assert(out[p] == r[p - 1] && out[q] == r[q - 1]);
            }
        }
        assert forall|p: int, q: int|
            0 <= p < q < out.len() && (#[trigger] out[p]).1 == (#[trigger] out[q]).1 implies lex_lt(
            out[p].0,
            out[q].0,
        ) by {
            if p == 0 {
                assert(out[q] == r[q - 1]);
            } else {
                assert(out[p] == r[p - 1] && out[q] == r[q - 1]);
            }
        }
    } else {
        let t = r.drop_first();
        assert forall|p: int, q: int| 0 <= p < q < t.len() implies (#[trigger] t[p]).1 >= (
        #[trigger] t[q]).1 by {
            assert(t[p] == r[p + 1] && t[q] == r[q + 1]);
        }
        assert forall|p: int, q: int|
            0 <= p < q < t.len() && (#[trigger] t[p]).1 == (#[trigger] t[q]).1 implies lex_lt(
            t[p].0,
            t[q].0,
        ) by {
            assert(t[p] == r[p + 1] && t[q] == r[q + 1]);
        }
        assert forall|k: int| 0 <= k < t.len() && (#[trigger] t[k]).1 == x.1 implies lex_lt(
            x.0,
            t[k].0,
        ) by {
            assert(t[k] == r[k + 1]);
        }
        lemma_insert_row_props(x, t);
        let it = insert_row(x, t);
        assert(out =~= seq![r[0]] + it);
        assert forall|k: int| 0 <= k < out.len() implies (#[trigger] out[k]) == x || r.contains(
            out[k],
        ) by {
            if k == 0 {
                assert(r[0] == r[0]);
                assert(r.contains(r[0]));
            } else {
                assert(out[k] == it[k - 1]);
                if it[k - 1] != x {
                    assert(t.contains(it[k - 1]));
                    let i = choose|i: int| 0 <= i < t.len() && t[i] == it[k - 1];
                    assert(r[i + 1] == t[i]);
                    assert(r.contains(t[i]));
                }
            }
        }
        assert forall|p: int, q: int| 0 <= p < q < out.len() implies (#[trigger] out[p]).1 >= (
        #[trigger] out[q]).1 by {
            if p == 0 {
                assert(out[q] == it[q - 1]);
                if it[q - 1] == x {
                    assert(r[0].1 > x.1);
                } else {
                    assert(t.contains(it[q - 1]));
                    let i = choose|i: int| 0 <= i < t.len() && t[i] == it[q - 1];
                    assert(t[i] == r[i + 1]);
                    assert(r[0].1 >= r[i + 1].1);
                }
            } else {
                assert(out[p] == it[p - 1] && out[q] == it[q - 1]);
            }
        }
        assert forall|p: int, q: int|
            0 <= p < q < out.len() && (#[trigger] out[p]).1 == (#[trigger] out[q]).1 implies lex_lt(
            out[p].0,
            out[q].0,
        ) by {
            if p == 0 {
                assert(out[q] == it[q - 1]);
                if it[q - 1] == x {
                    assert(false);
                } else {
                    assert(t.contains(it[q - 1]));
                    let i = choose|i: int| 0 <= i < t.len() && t[i] == it[q - 1];
                    assert(t[i] == r[i + 1]);
                    assert(lex_lt(r[0].0, r[i + 1].0));
                }
            } else {
                assert(out[p] == it[p - 1] && out[q] == it[q - 1]);
            }
        }
    }
}

/// What sorting guarantees, including the stability law: when the input rows
/// stand in strictly ascending name order, any two equal-size rows of the
/// sorted output keep that name order.
pub proof fn lemma_sort_rows_props(s: Seq<Row>)
    requires
        names_ascending(s),
    ensures
        sort_rows(s).len() == s.len(),
        forall|k: int| 0 <= k < s.len() ==> s.contains(#[trigger] sort_rows(s)[k]),
        sorted_size_desc(sort_rows(s)),
        stable_by_name(sort_rows(s)),
    decreases s.len(),
{
    if s.len() > 0 {
        let t = s.drop_first();
        assert forall|p: int, q: int| 0 <= p < q < t.len() implies lex_lt(
            (#[trigger] t[p]).0,
            (#[trigger] t[q]).0,
        ) by {
            assert(t[p] == s[p + 1] && t[q] == s[q + 1]);
        }
        lemma_sort_rows_props(t);
        let st = sort_rows(t);
        assert forall|k: int| 0 <= k < st.len() && (#[trigger] st[k]).1 == s[0].1 implies lex_lt(
            s[0].0,
            st[k].0,
        ) by {
            assert(t.contains(st[k]));
            let i = choose|i: int| 0 <= i < t.len() && t[i] == st[k];
            assert(t[i] == s[i + 1]);
            assert(lex_lt(s[0].0, s[i + 1].0));
        }
        lemma_insert_row_props(s[0], st);
        let out = sort_rows(s);
        assert forall|k: int| 0 <= k < s.len() implies s.contains(#[trigger] out[k]) by {
            if out[k] == s[0] {
                assert(s.contains(s[0]));
            } else {
                assert(st.contains(out[k]));
                let i = choose|i: int| 0 <= i < st.len() && st[i] == out[k];
                assert(t.contains(st[i]));
                let j = choose|j: int| 0 <= j < t.len() && t[j] == st[i];
                assert(s[j + 1] == t[j]);
                assert(s.contains(t[j]));
            }
        }
    }
}

/// What [`Entry::children_sorted`] returns for a well-formed directory: as
/// many rows as children, sizes descending, and — the stability law — any two
/// equal-size rows in ascending name order, which is the order the children
/// were stored in.
pub proof fn lemma_children_sorted_stable(kids: Seq<(Seq<u8>, Tree)>)
    requires
        names_strictly_sorted(kids),
    ensures
        sort_rows(rows_of(kids)).len() == kids.len(),
        sorted_size_desc(sort_rows(rows_of(kids))),
        stable_by_name(sort_rows(rows_of(kids))),
{
    assert forall|p: int, q: int| 0 <= p < q < rows_of(kids).len() implies lex_lt(
        (#[trigger] rows_of(kids)[p]).0,
        (#[trigger] rows_of(kids)[q]).0,
    ) by {
        assert(rows_of(kids)[p].0 == kids[p].0);
        assert(rows_of(kids)[q].0 == kids[q].0);
    }
    lemma_sort_rows_props(rows_of(kids));
}

/// Places a row into a size-descending vector of rows.
#[verifier::loop_isolation(false)]
fn insert_sorted_row(x: ChildRow, s: Vec<ChildRow>) -> (r: Vec<ChildRow>)
    ensures
        rows_model(r@) == insert_row(x.model(), rows_model(s@)),
{
    let ghost sm = rows_model(s@);
    let mut s = s;
    let mut j: usize = 0;
    while j < s.len() && s[j].size > x.size
        invariant
            0 <= j <= s@.len(),
            rows_model(s@) == sm,
            forall|k: int| 0 <= k < j ==> (#[trigger] sm[k]).1 > x.model().1,
        decreases s@.len() - j,
    {
        j = j + 1;
    }
    proof {
        lemma_insert_row_at(x.model(), sm, j as int);
    }
    s.insert(j, x);
    proof {
        assert(rows_model(s@) =~= sm.take(j as int) + seq![x.model()] + sm.skip(j as int));
    }
    s
}

/// Where `insert_row` puts the new row: before the first size that does not
/// exceed its own.
proof fn lemma_insert_row_at(x: Row, s: Seq<Row>, j: int)
    requires
        0 <= j <= s.len(),
        forall|k: int| 0 <= k < j ==> (#[trigger] s[k]).1 > x.1,
        j < s.len() ==> x.1 >= s[j].1,
    ensures
        insert_row(x, s) == s.take(j) + seq![x] + s.skip(j),
    decreases s.len(),
{
    if s.len() == 0 || j == 0 {
        assert(insert_row(x, s) =~= s.take(0) + seq![x] + s.skip(0));
    } else {
        let t = s.drop_first();
        assert forall|k: int| 0 <= k < j - 1 implies (#[trigger] t[k]).1 > x.1 by {
            assert(t[k] == s[k + 1]);
        }
        assert(j - 1 < t.len() ==> t[j - 1] == s[j]);
        lemma_insert_row_at(x, t, j - 1);
        assert(insert_row(x, s) =~= s.take(j) + seq![x] + s.skip(j));
    }
}

impl Entry {
    /// The children of this directory as display rows, sorted by size
    /// descending; equal sizes keep their name order. Fails on a file.
    #[verifier::loop_isolation(false)]
    pub fn children_sorted(&self) -> (r: Result<Vec<ChildRow>, TreeError>)
        ensures
            match r {
                Ok(rows) => self.model() is Dir && rows_model(rows@) == sort_rows(
                    rows_of(self.model()->Dir_children),
                ),
                Err(e) => self.model() is File && e == TreeError::NotADirectory,
            },
    {
        broadcast use lemma_kids_model;

        match self {
            Entry::File { .. } => Err(TreeError::NotADirectory),
            Entry::Directory { children, .. } => {
                let ghost kids = kids_model(children@);
                let ghost all = rows_of(kids);
                let mut rows: Vec<ChildRow> = Vec::new();
                let mut i: usize = 0;
                proof {
                    assert(rows_model(rows@) =~= all.take(0));
                }
                while i < children.len()
                    invariant
                        0 <= i <= children@.len(),
                        rows_model(rows@) == all.take(i as int),
                    decreases children@.len() - i,
                {
                    let row = ChildRow {
                        name: clone_name(&children[i].name),
                        size: children[i].entry.size(),
                        is_dir: children[i].entry.is_directory(),
                    };
                    rows.push(row);
                    proof {
                        assert(rows_model(rows@) =~= all.take(i + 1));
                    }
                    i = i + 1;
                }
                proof {
                    assert(all.take(children@.len() as int) =~= all);
                    assert(all.skip(all.len() as int) =~= Seq::<Row>::empty());
                }
                let mut sorted: Vec<ChildRow> = Vec::new();
                loop
                    invariant
                        rows_model(rows@) == all.take(rows@.len() as int),
                        rows@.len() <= all.len(),
                        rows_model(sorted@) == sort_rows(all.skip(rows@.len() as int)),
                    decreases rows@.len(),
                {
                    let ghost n = rows@.len() as int;
                    match rows.pop() {
                        None => {
                            proof {
                                assert(all.skip(0) =~= all);
                            }
                            break ;
                        },
                        Some(x) => {
                            proof {
                                assert(x.model() == all.take(n).last());
                                assert(all.take(n).last() == all[n - 1]);
                                assert(all.take(n).drop_last() =~= all.take(n - 1));
                                assert(all.skip(n - 1)[0] == all[n - 1]);
                                assert(all.skip(n - 1).drop_first() =~= all.skip(n));
                            }
                            sorted = insert_sorted_row(x, sorted);
                        },
                    }
                }
                Ok(sorted)
            },
        }
    }
}

} // verus!
