//! The size tree: files and directories with aggregated sizes, name-keyed
//! children, and a per-directory selection cursor.
//!
//! The executable type is [`Entry`]; every contract speaks about its
//! mathematical model [`Tree`], in which a directory's children are a
//! sequence of `(name, subtree)` pairs in strictly ascending name order.

use vstd::prelude::*;
use crate::order::lex_lt;

verus! {

/// One node of the size tree.
///
/// A directory stores both its aggregate `size` (its own metadata length plus
/// the sizes of all children) and the metadata length `own_size` of the
/// directory itself, so the aggregation equation is explicit state. `cursor`
/// remembers the selection index to restore when the directory is re-entered.
#[derive(Debug)]
pub enum Entry {
    File { size: u64 },
    Directory { size: u64, own_size: u64, children: Vec<Child>, cursor: usize },
}

/// A named child of a directory.
#[derive(Debug)]
pub struct Child {
    pub name: Vec<u8>,
    pub entry: Entry,
}

/// The mathematical model of an [`Entry`].
pub enum Tree {
    File { size: u64 },
    Dir { size: u64, own_size: u64, children: Seq<(Seq<u8>, Tree)>, cursor: usize },
}

impl Entry {
    /// The model of this node.
    pub open spec fn model(self) -> Tree
        decreases self,
    {
        match self {
            Entry::File { size } => Tree::File { size },
            Entry::Directory { size, own_size, children, cursor } => Tree::Dir {
                size,
                own_size,
                children: kids_model(children@),
                cursor,
            },
        }
    }

    /// Returns the stored aggregate size; it is never recomputed on reads.
    pub fn size(&self) -> (r: u64)
        ensures
            r == self.model().size_of(),
    {
        match self {
            Entry::File { size } => *size,
            Entry::Directory { size, .. } => *size,
        }
    }

    /// Returns whether this node is a directory.
    pub fn is_directory(&self) -> (r: bool)
        ensures
            r == (self.model() is Dir),
    {
        match self {
            Entry::Directory { .. } => true,
            Entry::File { .. } => false,
        }
    }
}

/// The models of a sequence of children.
pub open spec fn kids_model(s: Seq<Child>) -> Seq<(Seq<u8>, Tree)>
    decreases s,
{
    if s.len() == 0 {
        Seq::empty()
    } else {
        kids_model(s.drop_last()).push((s.last().name@, s.last().entry.model()))
    }
}

/// `kids_model` maps each child to its name and the model of its entry.
pub broadcast proof fn lemma_kids_model(s: Seq<Child>)
    ensures
        (#[trigger] kids_model(s)).len() == s.len(),
        forall|i: int|
            0 <= i < s.len() ==> #[trigger] kids_model(s)[i] == (s[i].name@, s[i].entry.model()),
    decreases s.len(),
{
    if s.len() > 0 {
        lemma_kids_model(s.drop_last());
    }
}

impl Tree {
    /// The stored aggregate size of this node.
    pub open spec fn size_of(self) -> u64 {
        match self {
            Tree::File { size } => size,
            Tree::Dir { size, .. } => size,
        }
    }

    /// The children of a directory node.
    pub open spec fn kids(self) -> Seq<(Seq<u8>, Tree)>
        recommends
            self is Dir,
    {
        self->Dir_children
    }

}

/// Children stand in strictly ascending name order, which makes names unique.
pub open spec fn names_strictly_sorted(children: Seq<(Seq<u8>, Tree)>) -> bool {
    forall|i: int, j: int|
        0 <= i < j < children.len() ==> lex_lt(
            #[trigger] children[i].0,
            #[trigger] children[j].0,
        )
}

/// Structural well-formedness: every directory's children are in strictly
/// ascending name order, recursively.
pub open spec fn tree_wf(t: Tree) -> bool
    decreases t,
{
    match t {
        Tree::File { .. } => true,
        Tree::Dir { children, .. } => {
            &&& names_strictly_sorted(children)
            &&& forall|i: int| 0 <= i < children.len() ==> tree_wf(#[trigger] children[i].1)
        },
    }
}

/// The sum of the stored sizes of a sequence of children, as an unbounded
/// integer.
pub open spec fn sum_sizes(children: Seq<(Seq<u8>, Tree)>) -> int
    decreases children.len(),
{
    if children.len() == 0 {
        0
    } else {
        sum_sizes(children.drop_last()) + children.last().1.size_of()
    }
}

/// Size consistency: every directory's aggregate size equals its own metadata
/// length plus the sum of its children's sizes, recursively.
pub open spec fn sizes_consistent(t: Tree) -> bool
    decreases t,
{
    match t {
        Tree::File { .. } => true,
        Tree::Dir { size, own_size, children, .. } => {
            &&& size as int == own_size as int + sum_sizes(children)
            &&& forall|i: int| 0 <= i < children.len() ==> sizes_consistent(#[trigger] children[i].1)
        },
    }
}

/// The index of the child named `n`, or `-1` if there is none.
pub open spec fn index_of_name(children: Seq<(Seq<u8>, Tree)>, n: Seq<u8>) -> int
    decreases children.len(),
{
    if children.len() == 0 {
        -1
    } else if children[0].0 == n {
        0
    } else {
        let r = index_of_name(children.drop_first(), n);
        if r == -1 {
            -1
        } else {
            r + 1
        }
    }
}

/// What `index_of_name` finds: the first child with the given name.
pub proof fn lemma_index_of_name(children: Seq<(Seq<u8>, Tree)>, n: Seq<u8>)
    ensures
        index_of_name(children, n) == -1 ==> forall|k: int|
            0 <= k < children.len() ==> (#[trigger] children[k].0) != n,
        index_of_name(children, n) != -1 ==> {
            let r = index_of_name(children, n);
            &&& 0 <= r < children.len()
            &&& children[r].0 == n
            &&& forall|k: int| 0 <= k < r ==> (#[trigger] children[k].0) != n
        },
    decreases children.len(),
{
    if children.len() > 0 && children[0].0 != n {
        lemma_index_of_name(children.drop_first(), n);
        let r0 = index_of_name(children.drop_first(), n);
        if r0 == -1 {
            assert forall|k: int| 0 <= k < children.len() implies (#[trigger] children[k].0)
                != n by {
                if k > 0 {
                    assert(children.drop_first()[k - 1] == children[k]);
                }
            }
        } else {
            let r = index_of_name(children, n);
            assert(children.drop_first()[r0] == children[r]);
            assert forall|k: int| 0 <= k < r implies (#[trigger] children[k].0) != n by {
                if k > 0 {
                    assert(children.drop_first()[k - 1] == children[k]);
                }
            }
        }
    }
}

/// `index_of_name` finds exactly the first child with the given name.
pub proof fn lemma_index_of_name_is(children: Seq<(Seq<u8>, Tree)>, n: Seq<u8>, j: int)
    requires
        0 <= j < children.len(),
        children[j].0 == n,
        forall|k: int| 0 <= k < j ==> (#[trigger] children[k].0) != n,
    ensures
        index_of_name(children, n) == j,
    decreases children.len(),
{
    if j > 0 {
        assert(children[0].0 != n);
        assert(children.drop_first()[j - 1] == children[j]);
        assert forall|k: int| 0 <= k < j - 1 implies (#[trigger] children.drop_first()[k].0)
            != n by {
            assert(children.drop_first()[k] == children[k + 1]);
        }
        lemma_index_of_name_is(children.drop_first(), n, j - 1);
    }
}

/// Resolving a path: walk from `t`, consuming one name component at a time;
/// `None` if a component is missing or an intermediate node is a file.
pub open spec fn lookup(t: Tree, path: Seq<Seq<u8>>) -> Option<Tree>
    decreases path.len(),
{
    if path.len() == 0 {
        Some(t)
    } else {
        match t {
            Tree::File { .. } => None,
            Tree::Dir { children, .. } => {
                let i = index_of_name(children, path[0]);
                if i == -1 {
                    None
                } else {
                    lookup(children[i].1, path.drop_first())
                }
            },
        }
    }
}

/// The tree after setting the cursor of the directory at `path` to `cur`;
/// the tree is unchanged if the path does not resolve.
pub open spec fn set_cursor_at(t: Tree, path: Seq<Seq<u8>>, cur: usize) -> Tree
    decreases path.len(),
{
    match t {
        Tree::File { .. } => t,
        Tree::Dir { size, own_size, children, cursor } => {
            if path.len() == 0 {
                Tree::Dir { size, own_size, children, cursor: cur }
            } else {
                let i = index_of_name(children, path[0]);
                if i == -1 {
                    t
                } else {
                    Tree::Dir {
                        size,
                        own_size,
                        children: children.update(
                            i,
                            (children[i].0, set_cursor_at(children[i].1, path.drop_first(), cur)),
                        ),
                        cursor,
                    }
                }
            }
        },
    }
}

/// The tree after replacing the node at `path` with `sub`; the tree is
/// unchanged if the path does not resolve.
pub open spec fn replace_at(t: Tree, path: Seq<Seq<u8>>, sub: Tree) -> Tree
    decreases path.len(),
{
    if path.len() == 0 {
        sub
    } else {
        match t {
            Tree::File { .. } => t,
            Tree::Dir { size, own_size, children, cursor } => {
                let i = index_of_name(children, path[0]);
                if i == -1 {
                    t
                } else {
                    Tree::Dir {
                        size,
                        own_size,
                        children: children.update(
                            i,
                            (children[i].0, replace_at(children[i].1, path.drop_first(), sub)),
                        ),
                        cursor,
                    }
                }
            },
        }
    }
}

/// A path of name components, seen as a sequence of byte sequences.
pub broadcast proof fn lemma_path_deep_view(p: Vec<Vec<u8>>)
    ensures
        (#[trigger] p.deep_view()).len() == p@.len(),
        forall|i: int| 0 <= i < p@.len() ==> p.deep_view()[i] == p@[i]@,
{
    assert forall|i: int| 0 <= i < p@.len() implies p.deep_view()[i] == p@[i]@ by {
        assert(p.deep_view()[i] =~= p@[i]@);
    }
}

/// Resolving one more component: look up the parent, then the named child.
pub proof fn lemma_lookup_push(t: Tree, p: Seq<Seq<u8>>, n: Seq<u8>)
    ensures
        lookup(t, p.push(n)) == (match lookup(t, p) {
            Option::Some(d) => {
                if d is Dir {
                    let i = index_of_name(d->Dir_children, n);
                    if i == -1 {
                        Option::<Tree>::None
                    } else {
                        Option::Some(d->Dir_children[i].1)
                    }
                } else {
                    Option::<Tree>::None
                }
            },
            Option::None => Option::<Tree>::None,
        }),
    decreases p.len(),
{
    if p.len() == 0 {
        assert(p.push(n)[0] == n);
        assert(p.push(n).drop_first() =~= Seq::<Seq<u8>>::empty());
        match t {
            Tree::File { .. } => {},
            Tree::Dir { children, .. } => {
                let i = index_of_name(children, n);
                if i != -1 {
                    lemma_index_of_name(children, n);
                    assert(lookup(t, p.push(n)) == lookup(
                        children[i].1,
                        p.push(n).drop_first(),
                    ));
                }
            },
        }
    } else {
        assert(p.push(n)[0] == p[0]);
        match t {
            Tree::File { .. } => {},
            Tree::Dir { children, .. } => {
                let j = index_of_name(children, p[0]);
                if j != -1 {
                    lemma_index_of_name(children, p[0]);
                    lemma_lookup_push(children[j].1, p.drop_first(), n);
                    assert(p.push(n).drop_first() =~= p.drop_first().push(n));
                }
            },
        }
    }
}

/// Every node a path resolves to in a well-formed tree is well-formed.
pub proof fn lemma_lookup_wf(t: Tree, p: Seq<Seq<u8>>)
    requires
        tree_wf(t),
        lookup(t, p) is Some,
    ensures
        tree_wf(lookup(t, p)->Some_0),
    decreases p.len(),
{
    if p.len() > 0 {
        match t {
            Tree::File { .. } => {},
            Tree::Dir { children, .. } => {
                let j = index_of_name(children, p[0]);
                lemma_index_of_name(children, p[0]);
                lemma_lookup_wf(children[j].1, p.drop_first());
            },
        }
    }
}

/// In a size-consistent tree, every directory a path resolves to satisfies
/// the aggregation equation: its size is its own metadata length plus the sum
/// of its children's sizes.
pub proof fn lemma_sizes_consistent_at(t: Tree, p: Seq<Seq<u8>>)
    requires
        sizes_consistent(t),
        lookup(t, p) is Some,
    ensures
        sizes_consistent(lookup(t, p)->Some_0),
        lookup(t, p)->Some_0 is Dir ==> lookup(t, p)->Some_0->Dir_size as int == lookup(
            t,
            p,
        )->Some_0->Dir_own_size as int + sum_sizes(lookup(t, p)->Some_0->Dir_children),
    decreases p.len(),
{
    if p.len() > 0 {
        match t {
            Tree::File { .. } => {},
            Tree::Dir { children, .. } => {
                let j = index_of_name(children, p[0]);
                lemma_index_of_name(children, p[0]);
                lemma_sizes_consistent_at(children[j].1, p.drop_first());
            },
        }
    }
}

/// In a strictly name-sorted child list, a name determines its index.
pub proof fn lemma_index_of_name_unique(children: Seq<(Seq<u8>, Tree)>, j: int)
    requires
        names_strictly_sorted(children),
        0 <= j < children.len(),
    ensures
        index_of_name(children, children[j].0) == j,
{
    assert forall|k: int| 0 <= k < j implies (#[trigger] children[k].0) != children[j].0 by {
        assert(lex_lt(children[k].0, children[j].0));
        if children[k].0 == children[j].0 {
            crate::order::lemma_lex_lt_irreflexive(children[j].0);
        }
    }
    lemma_index_of_name_is(children, children[j].0, j);
}

/// `a` is a (not necessarily strict) prefix of `b`.
pub open spec fn is_prefix_of(a: Seq<Seq<u8>>, b: Seq<Seq<u8>>) -> bool {
    a.len() <= b.len() && b.take(a.len() as int) == a
}

/// Both nodes resolve to directories that agree on everything but their
/// children's subtrees: sizes, cursor, and child names.
pub open spec fn same_dir_shape(a: Option<Tree>, b: Option<Tree>) -> bool {
    match (a, b) {
        (Option::Some(x), Option::Some(y)) => {
            &&& x is Dir
            &&& y is Dir
            &&& x->Dir_size == y->Dir_size
            &&& x->Dir_own_size == y->Dir_own_size
            &&& x->Dir_cursor == y->Dir_cursor
            &&& x.kids().len() == y.kids().len()
            &&& forall|i: int|
                0 <= i < x.kids().len() ==> (#[trigger] x.kids()[i]).0 == (#[trigger] y.kids()[i]).0
        },
        _ => false,
    }
}

/// `index_of_name` depends only on the names.
proof fn lemma_index_of_name_same_names(
    s1: Seq<(Seq<u8>, Tree)>,
    s2: Seq<(Seq<u8>, Tree)>,
    n: Seq<u8>,
)
    requires
        s1.len() == s2.len(),
        forall|i: int| 0 <= i < s1.len() ==> (#[trigger] s1[i]).0 == (#[trigger] s2[i]).0,
    ensures
        index_of_name(s1, n) == index_of_name(s2, n),
    decreases s1.len(),
{
    if s1.len() > 0 {
        assert forall|i: int| 0 <= i < s1.drop_first().len() implies (#[trigger] s1.drop_first()[i]).0
            == (#[trigger] s2.drop_first()[i]).0 by {
            assert(s1.drop_first()[i] == s1[i + 1]);
            assert(s2.drop_first()[i] == s2[i + 1]);
        }
        lemma_index_of_name_same_names(s1.drop_first(), s2.drop_first(), n);
    }
}

/// What setting a cursor changes: the directory at `path` keeps everything
/// but its cursor; paths extending `path` resolve as before; a strict prefix
/// resolves to a directory of the same shape; well-formedness is kept.
pub proof fn lemma_set_cursor_at_effects(t: Tree, p: Seq<Seq<u8>>, cur: usize)
    requires
        match lookup(t, p) {
            Option::Some(d) => d is Dir,
            Option::None => false,
        },
    ensures
        ({
            let d = lookup(t, p)->Some_0;
            lookup(set_cursor_at(t, p, cur), p) == Some(
                Tree::Dir {
                    size: d->Dir_size,
                    own_size: d->Dir_own_size,
                    children: d->Dir_children,
                    cursor: cur,
                },
            )
        }),
        forall|q: Seq<Seq<u8>>|
            is_prefix_of(p, q) && q.len() > p.len() ==> #[trigger] lookup(
                set_cursor_at(t, p, cur),
                q,
            ) == lookup(t, q),
        forall|q: Seq<Seq<u8>>|
            is_prefix_of(q, p) && q.len() < p.len() ==> same_dir_shape(
                lookup(t, q),
                #[trigger] lookup(set_cursor_at(t, p, cur), q),
            ),
        tree_wf(t) ==> tree_wf(set_cursor_at(t, p, cur)),
    decreases p.len(),
{
    let t2 = set_cursor_at(t, p, cur);
    if p.len() == 0 {
        let d = t;
        assert(lookup(t2, p) == Some(t2));
        assert forall|q: Seq<Seq<u8>>| is_prefix_of(p, q) && q.len() > p.len() implies #[trigger] lookup(
            t2,
            q,
        ) == lookup(t, q) by {
            assert(t2->Dir_children == t->Dir_children);
        }
        if tree_wf(t) {
            assert(tree_wf(t2));
        }
    } else {
        let children = t->Dir_children;
        let j = index_of_name(children, p[0]);
        lemma_index_of_name(children, p[0]);
        let child = children[j].1;
        let p1 = p.drop_first();
        lemma_set_cursor_at_effects(child, p1, cur);
        let child2 = set_cursor_at(child, p1, cur);
        let children2 = children.update(j, (children[j].0, child2));
        assert(t2 == Tree::Dir {
            size: t->Dir_size,
            own_size: t->Dir_own_size,
            children: children2,
            cursor: t->Dir_cursor,
        });
        assert forall|i: int| 0 <= i < children.len() implies (#[trigger] children[i]).0 == (
        #[trigger] children2[i]).0 by {}
        lemma_index_of_name_same_names(children2, children, p[0]);
        assert(index_of_name(children2, p[0]) == j);
        assert(lookup(t2, p) == lookup(child2, p1));

        assert forall|q: Seq<Seq<u8>>| is_prefix_of(p, q) && q.len() > p.len() implies #[trigger] lookup(
            t2,
            q,
        ) == lookup(t, q) by {
            assert(q.take(p.len() as int) == p);
            assert(q[0] == q.take(p.len() as int)[0]);
            assert(q[0] == p[0]);
            lemma_index_of_name_same_names(children2, children, q[0]);
            let q1 = q.drop_first();
            assert(q1.take(p1.len() as int) =~= q.take(p.len() as int).drop_first());
            assert(is_prefix_of(p1, q1) && q1.len() > p1.len());
            assert(lookup(t2, q) == lookup(child2, q1));
            assert(lookup(t, q) == lookup(child, q1));
        }

        assert forall|q: Seq<Seq<u8>>| is_prefix_of(q, p) && q.len() < p.len() implies
            same_dir_shape(lookup(t, q), #[trigger] lookup(t2, q)) by {
            if q.len() == 0 {
                assert(lookup(t, q) == Some(t) && lookup(t2, q) == Some(t2));
            } else {
                assert(p.take(q.len() as int) == q);
                assert(q[0] == p.take(q.len() as int)[0]);
                assert(q[0] == p[0]);
                lemma_index_of_name_same_names(children2, children, q[0]);
                let q1 = q.drop_first();
                assert(q1 =~= q.take(q.len() as int).drop_first());
                assert(p1.take(q1.len() as int) =~= p.take(q.len() as int).drop_first());
                assert(is_prefix_of(q1, p1) && q1.len() < p1.len());
                assert(lookup(t2, q) == lookup(child2, q1));
                assert(lookup(t, q) == lookup(child, q1));
            }
        }

        if tree_wf(t) {
            assert(tree_wf(child));
            assert(tree_wf(child2));
            assert(names_strictly_sorted(children2));
            assert forall|i: int| 0 <= i < children2.len() implies tree_wf(
                #[trigger] children2[i].1,
            ) by {
                if i != j {
                    assert(children2[i] == children[i]);
                }
            }
            assert(tree_wf(t2));
        }
    }
}

/// What replacing a subtree changes: `path` now resolves to the new subtree;
/// a strict prefix resolves to a directory of the same shape; when the new
/// subtree is well-formed, so is the whole tree.
pub proof fn lemma_replace_at_effects(t: Tree, p: Seq<Seq<u8>>, sub: Tree)
    requires
        lookup(t, p) is Some,
    ensures
        lookup(replace_at(t, p, sub), p) == Some(sub),
        forall|q: Seq<Seq<u8>>|
            is_prefix_of(q, p) && q.len() < p.len() ==> same_dir_shape(
                lookup(t, q),
                #[trigger] lookup(replace_at(t, p, sub), q),
            ),
        (tree_wf(t) && tree_wf(sub)) ==> tree_wf(replace_at(t, p, sub)),
    decreases p.len(),
{
    let t2 = replace_at(t, p, sub);
    if p.len() == 0 {
    } else {
        let children = t->Dir_children;
        let j = index_of_name(children, p[0]);
        lemma_index_of_name(children, p[0]);
        let child = children[j].1;
        let p1 = p.drop_first();
        lemma_replace_at_effects(child, p1, sub);
        let child2 = replace_at(child, p1, sub);
        let children2 = children.update(j, (children[j].0, child2));
        assert(t2 == Tree::Dir {
            size: t->Dir_size,
            own_size: t->Dir_own_size,
            children: children2,
            cursor: t->Dir_cursor,
        });
        assert forall|i: int| 0 <= i < children.len() implies (#[trigger] children[i]).0 == (
        #[trigger] children2[i]).0 by {}
        lemma_index_of_name_same_names(children2, children, p[0]);
        assert(lookup(t2, p) == lookup(child2, p1));

        assert forall|q: Seq<Seq<u8>>| is_prefix_of(q, p) && q.len() < p.len() implies
            same_dir_shape(lookup(t, q), #[trigger] lookup(t2, q)) by {
            if q.len() == 0 {
                assert(lookup(t, q) == Some(t) && lookup(t2, q) == Some(t2));
            } else {
                assert(p.take(q.len() as int) == q);
                assert(q[0] == p.take(q.len() as int)[0]);
                assert(q[0] == p[0]);
                lemma_index_of_name_same_names(children2, children, q[0]);
                let q1 = q.drop_first();
                assert(q1 =~= q.take(q.len() as int).drop_first());
                assert(p1.take(q1.len() as int) =~= p.take(q.len() as int).drop_first());
                assert(is_prefix_of(q1, p1) && q1.len() < p1.len());
                assert(lookup(t2, q) == lookup(child2, q1));
                assert(lookup(t, q) == lookup(child, q1));
            }
        }

        if tree_wf(t) && tree_wf(sub) {
            assert(tree_wf(child));
            assert(tree_wf(child2));
            assert(names_strictly_sorted(children2));
            assert forall|i: int| 0 <= i < children2.len() implies tree_wf(
                #[trigger] children2[i].1,
            ) by {
                if i != j {
                    assert(children2[i] == children[i]);
                }
            }
            assert(tree_wf(t2));
        }
    }
}

/// Why a path failed to resolve.
#[derive(Clone, Copy, Debug, PartialEq, Eq, Structural)]
pub enum TreeError {
    /// A component was absent, or an intermediate node was a file.
    NotFound,
    /// The resolved node is a file where a directory was required.
    NotADirectory,
}

/// Finds the child with the given name, if any.
#[verifier::loop_isolation(false)]
pub fn find_child(children: &Vec<Child>, name: &Vec<u8>) -> (r: Option<usize>)
    ensures
        match r {
            Some(j) => j < children@.len() && j == index_of_name(kids_model(children@), name@),
            None => index_of_name(kids_model(children@), name@) == -1,
        },
{
    broadcast use lemma_kids_model;

    let mut i: usize = 0;
    while i < children.len()
        invariant
            0 <= i <= children@.len(),
            forall|k: int| 0 <= k < i ==> (#[trigger] children@[k].name@) != name@,
        decreases children@.len() - i,
    {
        if crate::order::name_eq(&children[i].name, name) {
            proof {
                assert(kids_model(children@).len() == children@.len());
                assert(kids_model(children@)[i as int].0 == name@);
                assert forall|k: int| 0 <= k < i implies (#[trigger] kids_model(children@)[k].0)
                    != name@ by {
                    assert(kids_model(children@)[k].0 == children@[k].name@);
                }
                lemma_index_of_name_is(kids_model(children@), name@, i as int);
            }
            return Some(i);
        }
        i = i + 1;
    }
    proof {
        lemma_index_of_name(kids_model(children@), name@);
        assert forall|k: int| 0 <= k < kids_model(children@).len() implies (#[trigger] kids_model(
            children@,
        )[k].0) != name@ by {
            assert(kids_model(children@)[k].0 == children@[k].name@);
        }
    }
    None
}

impl Entry {
    /// Walks from this node along `path`, returning the addressed node.
    #[verifier::loop_isolation(false)]
    pub fn resolve(&self, path: &Vec<Vec<u8>>) -> (r: Result<&Entry, TreeError>)
        ensures
            match r {
                Ok(e) => lookup(self.model(), path.deep_view()) == Some(e.model()),
                Err(err) => lookup(self.model(), path.deep_view()) is None && err
                    == TreeError::NotFound,
            },
    {
        broadcast use lemma_kids_model, lemma_path_deep_view;

        let ghost full_path: Seq<Seq<u8>> = path.deep_view();
        let mut cur: &Entry = self;
        let mut i: usize = 0;
        proof {
            assert(full_path.skip(0) =~= full_path);
        }
        while i < path.len()
            invariant
                0 <= i <= path@.len(),
                full_path == path.deep_view(),
                full_path.len() == path@.len(),
                lookup(self.model(), full_path) == lookup(cur.model(), full_path.skip(i as int)),
            decreases path@.len() - i,
        {
            let ghost rest = full_path.skip(i as int);
            proof {
                assert(rest[0] == full_path[i as int]);
                assert(full_path[i as int] == path@[i as int]@);
            }
            match cur {
                Entry::File { .. } => {
                    return Err(TreeError::NotFound);
                },
                Entry::Directory { children, .. } => {
                    match find_child(children, &path[i]) {
                        None => {
                            return Err(TreeError::NotFound);
                        },
                        Some(j) => {
                            proof {
                                let kids = kids_model(children@);
                                assert(cur.model() == Tree::Dir {
                                    size: cur->Directory_size,
                                    own_size: cur->Directory_own_size,
                                    children: kids,
                                    cursor: cur->Directory_cursor,
                                });
                                assert(lookup(cur.model(), rest) == lookup(
                                    kids[j as int].1,
                                    rest.drop_first(),
                                ));
                                assert(kids[j as int].1 == children@[j as int].entry.model());
                                assert(rest.drop_first() =~= full_path.skip(i + 1));
                            }
                            cur = &children[j].entry;
                            i = i + 1;
                        },
                    }
                },
            }
        }
        proof {
            assert(full_path.skip(i as int) =~= Seq::<Seq<u8>>::empty());
        }
        Ok(cur)
    }

    /// The number of children of this directory.
    pub fn child_count(&self) -> (r: usize)
        requires
            self.model() is Dir,
        ensures
            r == self.model()->Dir_children.len(),
    {
        broadcast use lemma_kids_model;

        match self {
            Entry::Directory { children, .. } => {
                proof {
                    assert(self.model()->Dir_children == kids_model(children@));
                }
                children.len()
            },
            Entry::File { .. } => {
                proof {
                    assert(false);
                }
                0
            },
        }
    }

    /// The remembered cursor of this directory.
    pub fn cursor_value(&self) -> (r: usize)
        requires
            self.model() is Dir,
        ensures
            r == self.model()->Dir_cursor,
    {
        match self {
            Entry::Directory { cursor, .. } => *cursor,
            Entry::File { .. } => {
                proof {
                    assert(false);
                }
                0
            },
        }
    }

    /// This directory with its cursor set to `cur`.
    pub fn with_cursor(self, cur: usize) -> (r: Entry)
        requires
            self.model() is Dir,
        ensures
            r.model() == (Tree::Dir {
                size: self.model()->Dir_size,
                own_size: self.model()->Dir_own_size,
                children: self.model()->Dir_children,
                cursor: cur,
            }),
    {
        match self {
            Entry::Directory { size, own_size, children, .. } => Entry::Directory {
                size,
                own_size,
                children,
                cursor: cur,
            },
            Entry::File { size } => {
                proof {
                    assert(false);
                }
                Entry::File { size }
            },
        }
    }

    /// Rebuilds this node with the cursor of the directory addressed by
    /// `path[i..]` set to `cur`.
    pub fn with_cursor_at(self, path: &Vec<Vec<u8>>, i: usize, cur: usize) -> (r: Entry)
        requires
            i <= path@.len(),
            match lookup(self.model(), path.deep_view().skip(i as int)) {
                Option::Some(t) => t is Dir,
                Option::None => false,
            },
        ensures
            r.model() == set_cursor_at(self.model(), path.deep_view().skip(i as int), cur),
        decreases path@.len() - i,
    {
        broadcast use lemma_kids_model, lemma_path_deep_view;

        let ghost rest = path.deep_view().skip(i as int);
        match self {
            Entry::File { size } => {
                proof {
                    assert(false);
                }
                Entry::File { size }
            },
            Entry::Directory { size, own_size, mut children, cursor } => {
                let ghost old_kids = kids_model(children@);
                if i == path.len() {
                    proof {
                        assert(rest.len() == 0);
                    }
                    Entry::Directory { size, own_size, children, cursor: cur }
                } else {
                    proof {
                        assert(rest[0] == path@[i as int]@);
                    }
                    let j = match find_child(&children, &path[i]) {
                        Some(j) => j,
                        None => {
                            proof {
                                assert(false);
                            }
                            0
                        },
                    };
                    proof {
                        assert(old_kids[j as int].1 == children@[j as int].entry.model());
                        assert(rest.drop_first() =~= path.deep_view().skip(i + 1));
                    }
                    let child = children.remove(j);
                    let updated = child.entry.with_cursor_at(path, i + 1, cur);
                    children.insert(j, Child { name: child.name, entry: updated });
                    proof {
                        assert(kids_model(children@) =~= old_kids.update(
                            j as int,
                            (old_kids[j as int].0, set_cursor_at(old_kids[j as int].1, rest.drop_first(), cur)),
                        ));
                    }
                    Entry::Directory { size, own_size, children, cursor }
                }
            },
        }
    }

    /// Rebuilds this node with the node addressed by `path[i..]` replaced by
    /// `sub`.
    pub fn with_replaced_at(self, path: &Vec<Vec<u8>>, i: usize, sub: Entry) -> (r: Entry)
        requires
            i <= path@.len(),
            lookup(self.model(), path.deep_view().skip(i as int)) is Some,
        ensures
            r.model() == replace_at(self.model(), path.deep_view().skip(i as int), sub.model()),
        decreases path@.len() - i,
    {
        broadcast use lemma_kids_model, lemma_path_deep_view;

        let ghost rest = path.deep_view().skip(i as int);
        if i == path.len() {
            proof {
                assert(rest.len() == 0);
            }
            sub
        } else {
            proof {
                assert(rest[0] == path@[i as int]@);
            }
            match self {
                Entry::File { size } => {
                    proof {
                        assert(false);
                    }
                    Entry::File { size }
                },
                Entry::Directory { size, own_size, mut children, cursor } => {
                    let ghost old_kids = kids_model(children@);
                    let j = match find_child(&children, &path[i]) {
                        Some(j) => j,
                        None => {
                            proof {
                                assert(false);
                            }
                            0
                        },
                    };
                    proof {
                        assert(old_kids[j as int].1 == children@[j as int].entry.model());
                        assert(rest.drop_first() =~= path.deep_view().skip(i + 1));
                    }
                    let child = children.remove(j);
                    let updated = child.entry.with_replaced_at(path, i + 1, sub);
                    children.insert(j, Child { name: child.name, entry: updated });
                    proof {
                        assert(kids_model(children@) =~= old_kids.update(
                            j as int,
                            (
                                old_kids[j as int].0,
                                replace_at(old_kids[j as int].1, rest.drop_first(), sub.model()),
                            ),
                        ));
                    }
                    Entry::Directory { size, own_size, children, cursor }
                },
            }
        }
    }

    /// Like [`Entry::resolve`], but the addressed node must be a directory.
    pub fn resolve_dir(&self, path: &Vec<Vec<u8>>) -> (r: Result<&Entry, TreeError>)
        ensures
            match r {
                Ok(e) => lookup(self.model(), path.deep_view()) == Some(e.model()) && e.model()
                    is Dir,
                Err(err) => match lookup(self.model(), path.deep_view()) {
                    Option::None => err == TreeError::NotFound,
                    Option::Some(t) => t is File && err == TreeError::NotADirectory,
                },
            },
    {
        match self.resolve(path) {
            Err(e) => Err(e),
            Ok(entry) => match entry {
                Entry::File { .. } => Err(TreeError::NotADirectory),
                Entry::Directory { .. } => Ok(entry),
            },
        }
    }
}

} // verus!
