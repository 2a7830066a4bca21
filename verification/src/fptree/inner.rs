use crate::amphis_error::StoreError;
use crate::fptree::leaf::{lemma_leaf_preserved, lemma_leaf_same, Leaf};
use crate::fptree::leaf_manager::{
    fits_page, lemma_header_fields, LeafManager, LeafManagerView,
};
use crate::util::data_util::copy_range;
use crate::util::key_order::{
    key_le, key_less, key_lt, lemma_key_le_transitive, lemma_key_lt_total,
    lemma_key_lt_transitive,
};
use vstd::prelude::*;

verus! {

/// Separator keys an inner node may hold.
pub const FANOUT: usize = 3;

/// A node of the tree.
pub enum TreeNode {
    Leaf(Leaf),
    Inner(Inner),
}

/// A routing node: sorted separator keys and one child more than keys. The
/// child at `i` holds the keys from separator `i - 1` up to, but not
/// including, separator `i`.
pub struct Inner {
    keys: Vec<Vec<u8>>,
    children: Vec<TreeNode>,
    is_root: bool,
}

/// The child that `key` is routed to: the number of separators that `key`
/// has reached, counted from the first.
pub open spec fn child_index(keys: Seq<Seq<u8>>, key: Seq<u8>) -> int
    decreases keys.len(),
{
    if keys.len() == 0 || key_lt(key, keys[0]) {
        0
    } else {
        1 + child_index(keys.drop_first(), key)
    }
}

/// Whether `key` lies at or above `lo` and below `hi`, where they are given.
pub open spec fn in_range(key: Seq<u8>, lo: Option<Seq<u8>>, hi: Option<Seq<u8>>) -> bool {
    &&& lo matches Some(l) ==> key_le(l, key)
    &&& hi matches Some(h) ==> key_lt(key, h)
}

/// No separator comes before an earlier one or equals it.
pub open spec fn strictly_sorted(keys: Seq<Seq<u8>>) -> bool {
    forall|i: int, j: int| 0 <= i < j < keys.len() ==> key_lt(keys[i], keys[j])
}

/// The byte strings that a list of keys holds.
pub open spec fn key_views(keys: Seq<Vec<u8>>) -> Seq<Seq<u8>> {
    Seq::new(keys.len(), |i: int| keys[i]@)
}

impl Inner {
    pub closed spec fn keys(self) -> Seq<Seq<u8>> {
        key_views(self.keys@)
    }

    pub closed spec fn children(self) -> Seq<TreeNode> {
        self.children@
    }

    pub closed spec fn root_flag(self) -> bool {
        self.is_root
    }

    /// The lower bound of child `i` under the bounds of this node.
    pub open spec fn lower(self, i: int, lo: Option<Seq<u8>>) -> Option<Seq<u8>> {
        if i == 0 {
            lo
        } else {
            Some(self.keys()[i - 1])
        }
    }

    /// The upper bound of child `i` under the bounds of this node.
    pub open spec fn upper(self, i: int, hi: Option<Seq<u8>>) -> Option<Seq<u8>> {
        if i == self.keys().len() {
            hi
        } else {
            Some(self.keys()[i])
        }
    }
}

impl TreeNode {
    /// Page `p` belongs to a leaf of this subtree.
    pub open spec fn owned(self, p: int) -> bool
        decreases self,
    {
        match self {
            TreeNode::Leaf(leaf) => leaf.owns(p),
            TreeNode::Inner(inner) => exists|i: int|
                0 <= i < inner.children().len() && (#[trigger] inner.children()[i]).owned(p),
        }
    }

    /// The subtree is sound and holds keys between `lo` and `hi` only:
    /// every leaf is sound, every inner node has one to `FANOUT` strictly
    /// sorted separators within the bounds and one child more, each child
    /// keeps to the bounds that the separators set, and no page belongs to
    /// two children.
    pub open spec fn wf(self, m: LeafManagerView, lo: Option<Seq<u8>>, hi: Option<Seq<u8>>) -> bool
        decreases self,
    {
        match self {
            TreeNode::Leaf(leaf) => {
                &&& leaf.wf(m)
                &&& forall|key: Seq<u8>| leaf.lookup(m, key) is Some ==> in_range(key, lo, hi)
            },
            TreeNode::Inner(inner) => {
                &&& 1 <= inner.keys().len() <= 3
                &&& inner.children().len() == inner.keys().len() + 1
                &&& strictly_sorted(inner.keys())
                &&& lo matches Some(l) ==> key_lt(l, inner.keys()[0])
                &&& hi matches Some(h) ==> key_lt(inner.keys()[inner.keys().len() - 1], h)
                &&& forall|i: int|
                    0 <= i < inner.children().len() ==> (#[trigger] inner.children()[i]).wf(
                        m,
                        inner.lower(i, lo),
                        inner.upper(i, hi),
                    )
                &&& forall|i: int, j: int, p: int|
                    0 <= i < inner.children().len() && 0 <= j < inner.children().len() && i != j
                        ==> !(#[trigger] inner.children()[i].owned(p)
                        && #[trigger] inner.children()[j].owned(p))
            },
        }
    }

    /// The value stored for `key` in the leaf that `key` is routed to.
    pub open spec fn lookup(self, m: LeafManagerView, key: Seq<u8>) -> Option<Seq<u8>>
        decreases self,
    {
        match self {
            TreeNode::Leaf(leaf) => leaf.lookup(m, key),
            TreeNode::Inner(inner) => {
                let i = child_index(inner.keys(), key);
                if 0 <= i < inner.children().len() {
                    inner.children()[i].lookup(m, key)
                } else {
                    None
                }
            },
        }
    }

    pub open spec fn root_flag(self) -> bool {
        match self {
            TreeNode::Leaf(leaf) => leaf.root_flag(),
            TreeNode::Inner(inner) => inner.root_flag(),
        }
    }

    /// Whether an insert of `key` splits this node: the leaf that the key
    /// is routed to has all slots taken, none of them by `key`, and every
    /// inner node on the way to it holds all separators it may.
    pub open spec fn splits_on(self, m: LeafManagerView, key: Seq<u8>) -> bool
        decreases self,
    {
        match self {
            TreeNode::Leaf(leaf) => leaf.splits_on(m, key),
            TreeNode::Inner(inner) => {
                let i = child_index(inner.keys(), key);
                &&& inner.keys().len() == 3
                &&& 0 <= i < inner.children().len()
                &&& inner.children()[i].splits_on(m, key)
            },
        }
    }

    /// Whether an insert of `key` splits a leaf: the leaf that the key is
    /// routed to has all slots taken, none of them by `key`.
    pub open spec fn leaf_splits_on(self, m: LeafManagerView, key: Seq<u8>) -> bool
        decreases self,
    {
        match self {
            TreeNode::Leaf(leaf) => leaf.splits_on(m, key),
            TreeNode::Inner(inner) => {
                let i = child_index(inner.keys(), key);
                &&& 0 <= i < inner.children().len()
                &&& inner.children()[i].leaf_splits_on(m, key)
            },
        }
    }

    /// The primary page of the first leaf of this subtree.
    pub open spec fn first_id(self) -> usize
        decreases self,
    {
        match self {
            TreeNode::Leaf(leaf) => leaf.id(),
            TreeNode::Inner(inner) => if inner.children().len() > 0 {
                inner.children()[0].first_id()
            } else {
                0
            },
        }
    }

    /// The leaves of this subtree stand one behind the other in the sibling
    /// chain, and the last of them has `next` behind it.
    pub open spec fn chained(self, next: Option<usize>) -> bool
        decreases self,
    {
        match self {
            TreeNode::Leaf(leaf) => leaf.header().spec_next() == next,
            TreeNode::Inner(inner) => forall|i: int|
                0 <= i < inner.children().len() ==> (#[trigger] inner.children()[i]).chained(
                    seq_next(inner.children(), i, next),
                ),
        }
    }

    /// This subtree begins where `before` began and is chained as it was.
    pub open spec fn linked(self, before: TreeNode, next: Option<usize>) -> bool {
        self.first_id() == before.first_id() && self.chained(next)
    }

    /// This subtree begins where `before` began, has `sibling` behind it,
    /// and `sibling` has behind it what `before` had.
    pub open spec fn linked_with_split(
        self,
        sibling: TreeNode,
        before: TreeNode,
        next: Option<usize>,
    ) -> bool {
        &&& self.first_id() == before.first_id()
        &&& self.chained(Some(sibling.first_id()))
        &&& sibling.chained(next)
    }
}

/// What stands behind child `i` in the sibling chain: the first leaf of the
/// child behind it, or what stands behind the last child.
pub open spec fn seq_next(children: Seq<TreeNode>, i: int, next: Option<usize>) -> Option<usize> {
    if i + 1 < children.len() {
        Some(children[i + 1].first_id())
    } else {
        next
    }
}

/// The children stand one behind the other in the sibling chain.
pub open spec fn seq_chained(children: Seq<TreeNode>, next: Option<usize>) -> bool {
    forall|i: int|
        0 <= i < children.len() ==> (#[trigger] children[i]).chained(seq_next(children, i, next))
}

/// The child that a key is routed to lies between the separators around
/// it.
pub proof fn lemma_child_index(keys: Seq<Seq<u8>>, key: Seq<u8>)
    ensures
        0 <= child_index(keys, key) <= keys.len(),
        forall|j: int| 0 <= j < child_index(keys, key) ==> !key_lt(key, #[trigger] keys[j]),
        child_index(keys, key) < keys.len() ==> key_lt(key, keys[child_index(keys, key)]),
    decreases keys.len(),
{
    if keys.len() == 0 || key_lt(key, keys[0]) {
    } else {
        let rest = keys.drop_first();
        lemma_child_index(rest, key);
        assert forall|j: int| 0 <= j < child_index(keys, key) implies !key_lt(
            key,
            #[trigger] keys[j],
        ) by {
            if j > 0 {
                assert(keys[j] == rest[j - 1]);
            }
        }
    }
}

/// The index at which a key stops having reached the separators is the
/// child it is routed to.
pub proof fn lemma_child_index_is(keys: Seq<Seq<u8>>, key: Seq<u8>, i: int)
    requires
        0 <= i <= keys.len(),
        forall|j: int| 0 <= j < i ==> !key_lt(key, #[trigger] keys[j]),
        i < keys.len() ==> key_lt(key, keys[i]),
    ensures
        child_index(keys, key) == i,
    decreases keys.len(),
{
    if keys.len() == 0 {
    } else if i == 0 {
    } else {
        assert(!key_lt(key, keys[0]));
        let rest = keys.drop_first();
        assert forall|j: int| 0 <= j < i - 1 implies !key_lt(key, #[trigger] rest[j]) by {
            assert(rest[j] == keys[j + 1]);
        }
        lemma_child_index_is(rest, key, i - 1);
    }
}

/// Copies a key.
pub fn clone_key(key: &Vec<u8>) -> (copy: Vec<u8>)
    ensures
        copy@ == key@,
{
    copy_range(key, 0, key.len())
}

impl Inner {
    /// An inner node without keys and children.
    pub fn new() -> (inner: Inner)
        ensures
            inner.keys().len() == 0,
            inner.children().len() == 0,
            !inner.root_flag(),
    {
        Inner { keys: Vec::new(), children: Vec::new(), is_root: false }
    }

    pub fn is_root(&self) -> (root: bool)
        ensures
            root == self.root_flag(),
    {
        self.is_root
    }

    pub fn set_root(&mut self, is_root: bool)
        ensures
            final(self).root_flag() == is_root,
            final(self).keys() == old(self).keys(),
            final(self).children() == old(self).children(),
    {
        self.is_root = is_root;
    }

    pub fn is_leaf(&self) -> (leaf: bool)
        ensures
            !leaf,
    {
        false
    }

    /// Whether one more separator would make the node split.
    pub fn may_need_split(&self) -> (full: bool)
        ensures
            full == (self.keys().len() == 3),
    {
        self.keys.len() == FANOUT
    }

    /// Whether the node holds more separators than it may.
    pub fn need_split(&self) -> (over: bool)
        ensures
            over == (self.keys().len() > 3),
    {
        self.keys.len() > FANOUT
    }

    /// Appends a separator.
    pub fn add_key(&mut self, key: &Vec<u8>)
        ensures
            final(self).keys() == old(self).keys().push(key@),
            final(self).children() == old(self).children(),
            final(self).root_flag() == old(self).root_flag(),
    {
        self.keys.push(clone_key(key));
        assert(key_views(self.keys@) =~= key_views(old(self).keys@).push(key@));
    }

    /// Appends a child.
    pub fn add_child(&mut self, child: TreeNode)
        ensures
            final(self).children() == old(self).children().push(child),
            final(self).keys() == old(self).keys(),
            final(self).root_flag() == old(self).root_flag(),
    {
        self.children.push(child);
    }

    /// The separators.
    pub fn get_keys(&self) -> (keys: &Vec<Vec<u8>>)
        ensures
            key_views(keys@) == self.keys(),
    {
        &self.keys
    }

    /// The index of the child that `key` is routed to.
    pub fn get_child_index(&self, key: &Vec<u8>) -> (index: usize)
        ensures
            index == child_index(self.keys(), key@),
            index <= self.keys().len(),
    {
        let mut i: usize = 0;
        while i < self.keys.len() && !key_less(key.as_slice(), self.keys[i].as_slice())
            invariant
                i <= self.keys@.len(),
                forall|j: int| 0 <= j < i ==> !key_lt(key@, #[trigger] self.keys()[j]),
            decreases self.keys@.len() - i,
        {
            i = i + 1;
        }
        proof {
            lemma_child_index_is(self.keys(), key@, i as int);
        }
        i
    }

    /// The child that `key` is routed to; `None` where the node has no
    /// such child.
    pub fn get_child(&self, key: &Vec<u8>) -> (child: Option<&TreeNode>)
        ensures
            child == (if child_index(self.keys(), key@) < self.children().len() {
                Some(&self.children()[child_index(self.keys(), key@)])
            } else {
                None
            }),
    {
        let index: usize = self.get_child_index(key);
        if index < self.children.len() {
            Some(&self.children[index])
        } else {
            None
        }
    }

    /// Moves the separators from the third on and the children from the
    /// fourth on to a new node; the third separator moves up. Returns it
    /// with the new node.
    pub fn split(&mut self) -> (res: (Vec<u8>, Inner))
        requires
            old(self).keys().len() >= 3,
            old(self).children().len() >= 3,
        ensures
            res.0@ == old(self).keys()[2],
            final(self).keys() == old(self).keys().subrange(0, 2),
            final(self).children() == old(self).children().subrange(0, 3),
            final(self).root_flag() == old(self).root_flag(),
            res.1.keys() == old(self).keys().subrange(3, old(self).keys().len() as int),
            res.1.children() == old(self).children().subrange(
                3,
                old(self).children().len() as int,
            ),
            !res.1.root_flag(),
    {
        let mut new_keys: Vec<Vec<u8>> = self.keys.split_off((FANOUT + 1) / 2);
        let ghost moved = key_views(new_keys@);
        let split_key: Vec<u8> = new_keys.remove(0);
        let new_children: Vec<TreeNode> = self.children.split_off((FANOUT + 1) / 2 + 1);
        let new_inner = Inner { keys: new_keys, children: new_children, is_root: false };
        proof {
            let before = key_views(old(self).keys@);
            assert(key_views(self.keys@) =~= before.subrange(0, 2));
            assert(moved =~= before.subrange(2, before.len() as int));
            assert(key_views(new_inner.keys@) =~= before.subrange(3, before.len() as int));
        }
        (split_key, new_inner)
    }

    /// Enters a separator at its place among the sorted separators and the
    /// child that holds the keys from it on behind it. A node that then
    /// holds more separators than it may is split.
    pub fn insert(&mut self, split_key: &Vec<u8>, new_child: TreeNode) -> (res: Option<
        (Vec<u8>, Inner),
    >)
        requires
            child_index(old(self).keys(), split_key@) < old(self).children().len(),
            old(self).keys().len() >= 3 ==> old(self).children().len() >= 2,
        ensures
            ({
                let pos = child_index(old(self).keys(), split_key@);
                let keys = old(self).keys().insert(pos, split_key@);
                let children = old(self).children().insert(pos + 1, new_child);
                &&& final(self).root_flag() == old(self).root_flag()
                &&& if keys.len() <= 3 {
                    &&& res is None
                    &&& final(self).keys() == keys
                    &&& final(self).children() == children
                } else {
                    &&& res matches Some((up, right))
                    &&& up@ == keys[2]
                    &&& final(self).keys() == keys.subrange(0, 2)
                    &&& final(self).children() == children.subrange(0, 3)
                    &&& right.keys() == keys.subrange(3, keys.len() as int)
                    &&& right.children() == children.subrange(3, children.len() as int)
                    &&& !right.root_flag()
                }
            }),
    {
        let pos: usize = self.get_child_index(split_key);
        let count: usize = self.children.len();
        assert(pos < count);
        self.keys.insert(pos, clone_key(split_key));
        self.children.insert(pos + 1, new_child);
        proof {
            assert(key_views(self.keys@) =~= key_views(old(self).keys@).insert(
                pos as int,
                split_key@,
            ));
        }
        if self.need_split() {
            Some(self.split())
        } else {
            None
        }
    }
}


/// The lower bound of child `i` among `keys` under the lower bound `lo`.
pub open spec fn seq_lower(keys: Seq<Seq<u8>>, i: int, lo: Option<Seq<u8>>) -> Option<Seq<u8>> {
    if i == 0 {
        lo
    } else {
        Some(keys[i - 1])
    }
}

/// The upper bound of child `i` among `keys` under the upper bound `hi`.
pub open spec fn seq_upper(keys: Seq<Seq<u8>>, i: int, hi: Option<Seq<u8>>) -> Option<Seq<u8>> {
    if i == keys.len() {
        hi
    } else {
        Some(keys[i])
    }
}

/// Page `p` belongs to one of `children`.
pub open spec fn seq_owned(children: Seq<TreeNode>, p: int) -> bool {
    exists|i: int| 0 <= i < children.len() && (#[trigger] children[i]).owned(p)
}

/// What makes separators and children a sound inner node, but for the
/// number of separators.
pub open spec fn seq_wf(
    keys: Seq<Seq<u8>>,
    children: Seq<TreeNode>,
    m: LeafManagerView,
    lo: Option<Seq<u8>>,
    hi: Option<Seq<u8>>,
) -> bool {
    &&& 1 <= keys.len()
    &&& children.len() == keys.len() + 1
    &&& strictly_sorted(keys)
    &&& lo matches Some(l) ==> key_lt(l, keys[0])
    &&& hi matches Some(h) ==> key_lt(keys[keys.len() - 1], h)
    &&& forall|i: int|
        0 <= i < children.len() ==> (#[trigger] children[i]).wf(
            m,
            seq_lower(keys, i, lo),
            seq_upper(keys, i, hi),
        )
    &&& forall|i: int, j: int, p: int|
        0 <= i < children.len() && 0 <= j < children.len() && i != j ==> !(
        #[trigger] children[i].owned(p) && #[trigger] children[j].owned(p))
}

/// The value stored for `key` under the child that `key` is routed to.
pub open spec fn seq_lookup(
    keys: Seq<Seq<u8>>,
    children: Seq<TreeNode>,
    m: LeafManagerView,
    key: Seq<u8>,
) -> Option<Seq<u8>> {
    let i = child_index(keys, key);
    if 0 <= i < children.len() {
        children[i].lookup(m, key)
    } else {
        None
    }
}

/// The pages of a sound subtree are in use.
pub proof fn lemma_node_owned_mapped(
    node: TreeNode,
    m: LeafManagerView,
    lo: Option<Seq<u8>>,
    hi: Option<Seq<u8>>,
    p: int,
)
    requires
        node.wf(m, lo, hi),
        node.owned(p),
    ensures
        m.is_mapped(p),
    decreases node,
{
    match node {
        TreeNode::Leaf(leaf) => {
            crate::fptree::leaf::lemma_leaf_owned_mapped(leaf, m, p);
        },
        TreeNode::Inner(inner) => {
            let i = choose|i: int|
                0 <= i < inner.children().len() && (#[trigger] inner.children()[i]).owned(p);
            lemma_node_owned_mapped(inner.children()[i], m, inner.lower(i, lo), inner.upper(i, hi), p);
        },
    }
}

/// A sound subtree keeps to wider bounds too.
pub proof fn lemma_node_weaken(
    node: TreeNode,
    m: LeafManagerView,
    lo: Option<Seq<u8>>,
    hi: Option<Seq<u8>>,
    lo2: Option<Seq<u8>>,
    hi2: Option<Seq<u8>>,
)
    requires
        node.wf(m, lo, hi),
        lo2 matches Some(l2) ==> (lo matches Some(l) && key_le(l2, l)),
        hi2 matches Some(h2) ==> (hi matches Some(h) && key_le(h, h2)),
    ensures
        node.wf(m, lo2, hi2),
    decreases node,
{
    match node {
        TreeNode::Leaf(leaf) => {
            assert forall|key: Seq<u8>| leaf.lookup(m, key) is Some implies in_range(
                key,
                lo2,
                hi2,
            ) by {
                assert(in_range(key, lo, hi));
                if lo2 is Some {
                    lemma_key_le_transitive(lo2->0, lo->0, key);
                }
                if hi2 is Some {
                    lemma_key_le_transitive(key, hi->0, hi2->0);
                }
            }
        },
        TreeNode::Inner(inner) => {
            let n = inner.keys().len() as int;
            if lo2 is Some {
                lemma_key_le_transitive(lo2->0, lo->0, inner.keys()[0]);
            }
            if hi2 is Some {
                lemma_key_le_transitive(inner.keys()[n - 1], hi->0, hi2->0);
            }
            assert forall|i: int| 0 <= i < inner.children().len() implies (
            #[trigger] inner.children()[i]).wf(m, inner.lower(i, lo2), inner.upper(i, hi2)) by {
                lemma_node_weaken(
                    inner.children()[i],
                    m,
                    inner.lower(i, lo),
                    inner.upper(i, hi),
                    inner.lower(i, lo2),
                    inner.upper(i, hi2),
                );
            }
        },
    }
}

/// A subtree whose pages kept their bytes is as sound as before and
/// stores what it stored.
#[verifier::rlimit(50)]
pub proof fn lemma_node_preserved(
    node: TreeNode,
    a: LeafManagerView,
    b: LeafManagerView,
    lo: Option<Seq<u8>>,
    hi: Option<Seq<u8>>,
)
    requires
        node.wf(a, lo, hi),
        b.wf(),
        forall|p: int| node.owned(p) ==> b.is_mapped(p) && a.same_page(b, p),
    ensures
        node.wf(b, lo, hi),
        forall|key: Seq<u8>| node.lookup(b, key) == node.lookup(a, key),
    decreases node,
{
    match node {
        TreeNode::Leaf(leaf) => {
            lemma_leaf_preserved(leaf, a, b);
        },
        TreeNode::Inner(inner) => {
            assert forall|i: int| 0 <= i < inner.children().len() implies (
            #[trigger] inner.children()[i]).wf(b, inner.lower(i, lo), inner.upper(i, hi)) && (
            forall|key: Seq<u8>|
                inner.children()[i].lookup(b, key) == inner.children()[i].lookup(a, key)) by {
                let child = inner.children()[i];
                assert forall|p: int| child.owned(p) implies b.is_mapped(p) && a.same_page(b, p) by {
                    assert(node.owned(p));
                }
                lemma_node_preserved(child, a, b, inner.lower(i, lo), inner.upper(i, hi));
            }
            assert forall|key: Seq<u8>| node.lookup(b, key) == node.lookup(a, key) by {
                let i = child_index(inner.keys(), key);
                if 0 <= i < inner.children().len() {
                    assert(inner.children()[i].lookup(b, key) == inner.children()[i].lookup(a, key));
                }
            }
        },
    }
}


/// Where keys are routed to after a separator was entered between its
/// neighbours.
#[verifier::rlimit(50)]
pub proof fn lemma_route_insert(keys: Seq<Seq<u8>>, up: Seq<u8>, idx: int, key: Seq<u8>)
    requires
        strictly_sorted(keys),
        0 <= idx <= keys.len(),
        idx > 0 ==> key_lt(keys[idx - 1], up),
        idx < keys.len() ==> key_lt(up, keys[idx]),
    ensures
        strictly_sorted(keys.insert(idx, up)),
        child_index(keys, up) == idx,
        child_index(keys.insert(idx, up), key) == ({
            let j = child_index(keys, key);
            if j < idx {
                j
            } else if j == idx {
                if key_lt(key, up) {
                    idx
                } else {
                    idx + 1
                }
            } else {
                j + 1
            }
        }),
{
    let keys2 = keys.insert(idx, up);
    assert forall|i: int, j: int| 0 <= i < j < keys2.len() implies key_lt(keys2[i], keys2[j]) by {
        if j == idx {
            if i < idx - 1 {
                lemma_key_lt_transitive(keys[i], keys[idx - 1], up);
            }
        } else if i == idx {
            if j - 1 > idx {
                lemma_key_lt_transitive(up, keys[idx], keys[j - 1]);
            }
        } else {
            let a = if i < idx {
                i
            } else {
                i - 1
            };
            let b = if j < idx {
                j
            } else {
                j - 1
            };
            assert(keys2[i] == keys[a]);
            assert(keys2[j] == keys[b]);
        }
    }
    // the separator itself
    assert forall|t: int| 0 <= t < idx implies !key_lt(up, #[trigger] keys[t]) by {
        if t < idx - 1 {
            lemma_key_lt_transitive(keys[t], keys[idx - 1], up);
        }
        lemma_key_lt_total(up, keys[t]);
    }
    lemma_child_index_is(keys, up, idx);
    // any key
    lemma_child_index(keys, key);
    let j = child_index(keys, key);
    let j2 = if j < idx {
        j
    } else if j == idx {
        if key_lt(key, up) {
            idx
        } else {
            idx + 1
        }
    } else {
        j + 1
    };
    assert forall|t: int| 0 <= t < j2 implies !key_lt(key, #[trigger] keys2[t]) by {
        if t < idx {
            assert(keys2[t] == keys[t]);
        } else if t == idx {
            if j > idx && key_lt(key, up) {
                lemma_key_lt_transitive(key, up, keys[idx]);
                assert(!key_lt(key, keys[idx]));
            }
        } else {
            assert(keys2[t] == keys[t - 1]);
        }
    }
    if j2 < keys2.len() {
        if j < idx {
            assert(keys2[j2] == keys[j]);
        } else if j == idx {
            if !key_lt(key, up) {
                assert(keys2[j2] == keys[j]);
            }
        } else {
            assert(keys2[j2] == keys[j]);
        }
    }
    lemma_child_index_is(keys2, key, j2);
}

/// Where keys are routed to after a split at the third separator.
pub proof fn lemma_route_split(keys: Seq<Seq<u8>>, key: Seq<u8>)
    requires
        strictly_sorted(keys),
        keys.len() >= 3,
    ensures
        key_lt(key, keys[2]) ==> child_index(keys, key) <= 2 && child_index(
            keys.subrange(0, 2),
            key,
        ) == child_index(keys, key),
        !key_lt(key, keys[2]) ==> child_index(keys, key) >= 3 && child_index(
            keys.subrange(3, keys.len() as int),
            key,
        ) == child_index(keys, key) - 3,
{
    lemma_child_index(keys, key);
    let j = child_index(keys, key);
    let left = keys.subrange(0, 2);
    let right = keys.subrange(3, keys.len() as int);
    if key_lt(key, keys[2]) {
        if j > 2 {
            assert(!key_lt(key, keys[2]));
        }
        assert forall|t: int| 0 <= t < j implies !key_lt(key, #[trigger] left[t]) by {
            assert(left[t] == keys[t]);
        }
        if j < 2 {
            assert(left[j] == keys[j]);
        }
        lemma_child_index_is(left, key, j);
    } else {
        if j < 3 {
            if j < 2 {
                lemma_key_lt_transitive(key, keys[j], keys[2]);
            }
        }
        assert forall|t: int| 0 <= t < j - 3 implies !key_lt(key, #[trigger] right[t]) by {
            assert(right[t] == keys[t + 3]);
        }
        if j - 3 < right.len() {
            assert(right[j - 3] == keys[j]);
        }
        lemma_child_index_is(right, key, j - 3);
    }
}

/// An inner node whose child took a pair without splitting.
#[verifier::rlimit(50)]
pub proof fn lemma_child_updated(
    keys: Seq<Seq<u8>>,
    children: Seq<TreeNode>,
    a: LeafManagerView,
    child: TreeNode,
    b: LeafManagerView,
    idx: int,
    lo: Option<Seq<u8>>,
    hi: Option<Seq<u8>>,
    key: Seq<u8>,
    value: Seq<u8>,
)
    requires
        seq_wf(keys, children, a, lo, hi),
        0 <= idx < children.len(),
        idx == child_index(keys, key),
        b.wf(),
        forall|p: int| a.is_mapped(p) ==> b.is_mapped(p),
        forall|p: int| a.is_mapped(p) && !children[idx].owned(p) ==> #[trigger] a.same_page(b, p),
        child.wf(b, seq_lower(keys, idx, lo), seq_upper(keys, idx, hi)),
        forall|k: Seq<u8>|
            child.lookup(b, k) == (if k == key {
                Some(value)
            } else {
                children[idx].lookup(a, k)
            }),
        forall|p: int| child.owned(p) ==> children[idx].owned(p) || !a.is_mapped(p),
    ensures
        seq_wf(keys, children.update(idx, child), b, lo, hi),
        forall|k: Seq<u8>|
            seq_lookup(keys, children.update(idx, child), b, k) == (if k == key {
                Some(value)
            } else {
                seq_lookup(keys, children, a, k)
            }),
        forall|p: int|
            seq_owned(children.update(idx, child), p) ==> seq_owned(children, p) || !a.is_mapped(p),
{
    let after = children.update(idx, child);
    assert forall|i: int| 0 <= i < after.len() implies (#[trigger] after[i]).wf(
        b,
        seq_lower(keys, i, lo),
        seq_upper(keys, i, hi),
    ) && (i != idx ==> forall|k: Seq<u8>| after[i].lookup(b, k) == children[i].lookup(a, k)) by {
        if i != idx {
            let other = children[i];
            assert forall|p: int| other.owned(p) implies b.is_mapped(p) && a.same_page(b, p) by {
                lemma_node_owned_mapped(other, a, seq_lower(keys, i, lo), seq_upper(keys, i, hi), p);
                assert(!(children[i].owned(p) && children[idx].owned(p)));
            }
            lemma_node_preserved(other, a, b, seq_lower(keys, i, lo), seq_upper(keys, i, hi));
        }
    }
    assert forall|i: int, j: int, p: int|
        0 <= i < after.len() && 0 <= j < after.len() && i != j implies !(
    #[trigger] after[i].owned(p) && #[trigger] after[j].owned(p)) by {
        if after[i].owned(p) && after[j].owned(p) {
            assert(!(children[i].owned(p) && children[j].owned(p)));
            if i == idx {
                lemma_node_owned_mapped(
                    children[j],
                    a,
                    seq_lower(keys, j, lo),
                    seq_upper(keys, j, hi),
                    p,
                );
            } else if j == idx {
                lemma_node_owned_mapped(
                    children[i],
                    a,
                    seq_lower(keys, i, lo),
                    seq_upper(keys, i, hi),
                    p,
                );
            }
        }
    }
    assert forall|k: Seq<u8>|
        seq_lookup(keys, after, b, k) == (if k == key {
            Some(value)
        } else {
            seq_lookup(keys, children, a, k)
        }) by {
        lemma_child_index(keys, k);
        let i = child_index(keys, k);
        if i != idx {
            assert(after[i].lookup(b, k) == children[i].lookup(a, k));
        }
    }
    assert forall|p: int| seq_owned(after, p) implies seq_owned(children, p) || !a.is_mapped(p) by {
        let i = choose|i: int| 0 <= i < after.len() && (#[trigger] after[i]).owned(p);
        if i != idx {
            assert(children[i].owned(p));
        } else if children[idx].owned(p) {
        }
    }
}


/// What is known when a child took a pair and split.
pub open spec fn child_split_ctx(
    keys: Seq<Seq<u8>>,
    children: Seq<TreeNode>,
    a: LeafManagerView,
    child: TreeNode,
    sibling: TreeNode,
    up: Seq<u8>,
    b: LeafManagerView,
    idx: int,
    lo: Option<Seq<u8>>,
    hi: Option<Seq<u8>>,
    key: Seq<u8>,
    value: Seq<u8>,
) -> bool {
    &&& seq_wf(keys, children, a, lo, hi)
    &&& 0 <= idx < children.len()
    &&& idx == child_index(keys, key)
    &&& b.wf()
    &&& forall|p: int| a.is_mapped(p) ==> b.is_mapped(p)
    &&& forall|p: int| a.is_mapped(p) && !children[idx].owned(p) ==> #[trigger] a.same_page(b, p)
    &&& seq_lower(keys, idx, lo) matches Some(l) ==> key_lt(l, up)
    &&& seq_upper(keys, idx, hi) matches Some(h) ==> key_lt(up, h)
    &&& child.wf(b, seq_lower(keys, idx, lo), Some(up))
    &&& sibling.wf(b, Some(up), seq_upper(keys, idx, hi))
    &&& forall|k: Seq<u8>|
        (if k == key {
            Some(value)
        } else {
            children[idx].lookup(a, k)
        }) == (if key_lt(k, up) {
            child.lookup(b, k)
        } else {
            sibling.lookup(b, k)
        })
    &&& forall|p: int| child.owned(p) ==> children[idx].owned(p) || !a.is_mapped(p)
    &&& forall|p: int| sibling.owned(p) ==> children[idx].owned(p) || !a.is_mapped(p)
    &&& forall|p: int| !(child.owned(p) && sibling.owned(p))
}

#[verifier::rlimit(50)]
proof fn lemma_child_split_wf(
    keys: Seq<Seq<u8>>,
    children: Seq<TreeNode>,
    a: LeafManagerView,
    child: TreeNode,
    sibling: TreeNode,
    up: Seq<u8>,
    b: LeafManagerView,
    idx: int,
    lo: Option<Seq<u8>>,
    hi: Option<Seq<u8>>,
    key: Seq<u8>,
    value: Seq<u8>,
)
    requires
        child_split_ctx(keys, children, a, child, sibling, up, b, idx, lo, hi, key, value),
    ensures
        forall|i: int|
            0 <= i < children.len() + 1 ==> (#[trigger] children.update(idx, child).insert(
                idx + 1,
                sibling,
            )[i]).wf(
                b,
                seq_lower(keys.insert(idx, up), i, lo),
                seq_upper(keys.insert(idx, up), i, hi),
            ),
{
    let keys2 = keys.insert(idx, up);
    let after = children.update(idx, child).insert(idx + 1, sibling);
    assert forall|i: int| 0 <= i < after.len() implies (#[trigger] after[i]).wf(
        b,
        seq_lower(keys2, i, lo),
        seq_upper(keys2, i, hi),
    ) by {
        if i == idx {
            assert(after[i] == child);
            assert(seq_lower(keys2, i, lo) == seq_lower(keys, idx, lo));
            assert(seq_upper(keys2, i, hi) == Some(up));
        } else if i == idx + 1 {
            assert(after[i] == sibling);
            assert(seq_lower(keys2, i, lo) == Some(up));
            assert(seq_upper(keys2, i, hi) == seq_upper(keys, idx, hi));
        } else {
            let from = if i < idx {
                i
            } else {
                i - 1
            };
            let other = children[from];
            assert(after[i] == other);
            assert forall|p: int| other.owned(p) implies b.is_mapped(p) && a.same_page(b, p) by {
                lemma_node_owned_mapped(
                    other,
                    a,
                    seq_lower(keys, from, lo),
                    seq_upper(keys, from, hi),
                    p,
                );
                assert(!(children[from].owned(p) && children[idx].owned(p)));
            }
            lemma_node_preserved(
                other,
                a,
                b,
                seq_lower(keys, from, lo),
                seq_upper(keys, from, hi),
            );
            assert(seq_lower(keys2, i, lo) == seq_lower(keys, from, lo));
            assert(seq_upper(keys2, i, hi) == seq_upper(keys, from, hi));
        }
    }
}

#[verifier::rlimit(50)]
proof fn lemma_child_split_disjoint(
    keys: Seq<Seq<u8>>,
    children: Seq<TreeNode>,
    a: LeafManagerView,
    child: TreeNode,
    sibling: TreeNode,
    up: Seq<u8>,
    b: LeafManagerView,
    idx: int,
    lo: Option<Seq<u8>>,
    hi: Option<Seq<u8>>,
    key: Seq<u8>,
    value: Seq<u8>,
    i: int,
    j: int,
    p: int,
)
    requires
        child_split_ctx(keys, children, a, child, sibling, up, b, idx, lo, hi, key, value),
        0 <= i < children.len() + 1,
        0 <= j < children.len() + 1,
        i != j,
    ensures
        !(children.update(idx, child).insert(idx + 1, sibling)[i].owned(p) && children.update(
            idx,
            child,
        ).insert(idx + 1, sibling)[j].owned(p)),
{
    let after = children.update(idx, child).insert(idx + 1, sibling);
    if after[i].owned(p) && after[j].owned(p) {
        let fi = if i <= idx {
            i
        } else {
            i - 1
        };
        let fj = if j <= idx {
            j
        } else {
            j - 1
        };
        let new_i = i == idx || i == idx + 1;
        let new_j = j == idx || j == idx + 1;
        if !new_i {
            assert(after[i] == children[fi]);
            lemma_node_owned_mapped(
                children[fi],
                a,
                seq_lower(keys, fi, lo),
                seq_upper(keys, fi, hi),
                p,
            );
        }
        if !new_j {
            assert(after[j] == children[fj]);
            lemma_node_owned_mapped(
                children[fj],
                a,
                seq_lower(keys, fj, lo),
                seq_upper(keys, fj, hi),
                p,
            );
        }
        if !new_i && !new_j {
            assert(!(children[fi].owned(p) && children[fj].owned(p)));
        } else if !new_i {
            assert(!(children[fi].owned(p) && children[idx].owned(p)));
        } else if !new_j {
            assert(!(children[fj].owned(p) && children[idx].owned(p)));
        }
    }
}

#[verifier::rlimit(50)]
proof fn lemma_child_split_lookup(
    keys: Seq<Seq<u8>>,
    children: Seq<TreeNode>,
    a: LeafManagerView,
    child: TreeNode,
    sibling: TreeNode,
    up: Seq<u8>,
    b: LeafManagerView,
    idx: int,
    lo: Option<Seq<u8>>,
    hi: Option<Seq<u8>>,
    key: Seq<u8>,
    value: Seq<u8>,
    k: Seq<u8>,
)
    requires
        child_split_ctx(keys, children, a, child, sibling, up, b, idx, lo, hi, key, value),
    ensures
        seq_lookup(
            keys.insert(idx, up),
            children.update(idx, child).insert(idx + 1, sibling),
            b,
            k,
        ) == (if k == key {
            Some(value)
        } else {
            seq_lookup(keys, children, a, k)
        }),
{
    let after = children.update(idx, child).insert(idx + 1, sibling);
    lemma_route_insert(keys, up, idx, k);
    lemma_child_index(keys, k);
    let j = child_index(keys, k);
    if j < idx {
        assert(after[j] == children[j]);
        lemma_node_owned_frame(children, keys, a, b, j, idx, lo, hi);
    } else if j > idx {
        assert(after[j + 1] == children[j]);
        lemma_node_owned_frame(children, keys, a, b, j, idx, lo, hi);
    } else {
        assert(after[idx] == child);
        assert(after[idx + 1] == sibling);
    }
}

/// An inner node whose child took a pair and split: the split key is
/// entered at the child's place and the sibling behind the child.
#[verifier::rlimit(40)]
pub proof fn lemma_child_split(
    keys: Seq<Seq<u8>>,
    children: Seq<TreeNode>,
    a: LeafManagerView,
    child: TreeNode,
    sibling: TreeNode,
    up: Seq<u8>,
    b: LeafManagerView,
    idx: int,
    lo: Option<Seq<u8>>,
    hi: Option<Seq<u8>>,
    key: Seq<u8>,
    value: Seq<u8>,
)
    requires
        child_split_ctx(keys, children, a, child, sibling, up, b, idx, lo, hi, key, value),
    ensures
        child_index(keys, up) == idx,
        seq_wf(keys.insert(idx, up), children.update(idx, child).insert(idx + 1, sibling), b, lo, hi),
        forall|k: Seq<u8>|
            seq_lookup(
                keys.insert(idx, up),
                children.update(idx, child).insert(idx + 1, sibling),
                b,
                k,
            ) == (if k == key {
                Some(value)
            } else {
                seq_lookup(keys, children, a, k)
            }),
        forall|p: int|
            seq_owned(children.update(idx, child).insert(idx + 1, sibling), p) ==> seq_owned(
                children,
                p,
            ) || !a.is_mapped(p),
{
    let keys2 = keys.insert(idx, up);
    let after = children.update(idx, child).insert(idx + 1, sibling);
    lemma_route_insert(keys, up, idx, key);
    lemma_child_split_wf(keys, children, a, child, sibling, up, b, idx, lo, hi, key, value);
    assert forall|i: int, j: int, p: int|
        0 <= i < after.len() && 0 <= j < after.len() && i != j implies !(
    #[trigger] after[i].owned(p) && #[trigger] after[j].owned(p)) by {
        lemma_child_split_disjoint(
            keys,
            children,
            a,
            child,
            sibling,
            up,
            b,
            idx,
            lo,
            hi,
            key,
            value,
            i,
            j,
            p,
        );
    }
    assert(keys2[0] == if idx == 0 {
        up
    } else {
        keys[0]
    });
    assert(keys2[keys2.len() - 1] == if idx == keys.len() {
        up
    } else {
        keys[keys.len() - 1]
    });
    assert forall|k: Seq<u8>|
        seq_lookup(keys2, after, b, k) == (if k == key {
            Some(value)
        } else {
            seq_lookup(keys, children, a, k)
        }) by {
        lemma_child_split_lookup(
            keys,
            children,
            a,
            child,
            sibling,
            up,
            b,
            idx,
            lo,
            hi,
            key,
            value,
            k,
        );
    }
    assert forall|p: int| seq_owned(after, p) implies seq_owned(children, p) || !a.is_mapped(p) by {
        lemma_child_split_owned(
            keys,
            children,
            a,
            child,
            sibling,
            up,
            b,
            idx,
            lo,
            hi,
            key,
            value,
            p,
        );
    }
}

proof fn lemma_child_split_owned(
    keys: Seq<Seq<u8>>,
    children: Seq<TreeNode>,
    a: LeafManagerView,
    child: TreeNode,
    sibling: TreeNode,
    up: Seq<u8>,
    b: LeafManagerView,
    idx: int,
    lo: Option<Seq<u8>>,
    hi: Option<Seq<u8>>,
    key: Seq<u8>,
    value: Seq<u8>,
    p: int,
)
    requires
        child_split_ctx(keys, children, a, child, sibling, up, b, idx, lo, hi, key, value),
        seq_owned(children.update(idx, child).insert(idx + 1, sibling), p),
    ensures
        seq_owned(children, p) || !a.is_mapped(p),
{
    let after = children.update(idx, child).insert(idx + 1, sibling);
    let i = choose|i: int| 0 <= i < after.len() && (#[trigger] after[i]).owned(p);
    if i == idx {
        assert(after[i] == child);
        if children[idx].owned(p) {
        }
    } else if i == idx + 1 {
        assert(after[i] == sibling);
        if children[idx].owned(p) {
        }
    } else {
        let from = if i < idx {
            i
        } else {
            i - 1
        };
        assert(after[i] == children[from]);
        assert(children[from].owned(p));
    }
}

/// A child that is not the one that changed stores what it stored.
proof fn lemma_node_owned_frame(
    children: Seq<TreeNode>,
    keys: Seq<Seq<u8>>,
    a: LeafManagerView,
    b: LeafManagerView,
    j: int,
    idx: int,
    lo: Option<Seq<u8>>,
    hi: Option<Seq<u8>>,
)
    requires
        seq_wf(keys, children, a, lo, hi),
        0 <= idx < children.len(),
        0 <= j < children.len(),
        j != idx,
        b.wf(),
        forall|p: int| a.is_mapped(p) ==> b.is_mapped(p),
        forall|p: int| a.is_mapped(p) && !children[idx].owned(p) ==> #[trigger] a.same_page(b, p),
    ensures
        forall|k: Seq<u8>| children[j].lookup(b, k) == children[j].lookup(a, k),
{
    let other = children[j];
    assert forall|p: int| other.owned(p) implies b.is_mapped(p) && a.same_page(b, p) by {
        lemma_node_owned_mapped(other, a, seq_lower(keys, j, lo), seq_upper(keys, j, hi), p);
        assert(!(children[j].owned(p) && children[idx].owned(p)));
    }
    lemma_node_preserved(other, a, b, seq_lower(keys, j, lo), seq_upper(keys, j, hi));
}

/// An inner node with four separators split at the third.
#[verifier::rlimit(50)]
pub proof fn lemma_inner_split(
    keys: Seq<Seq<u8>>,
    children: Seq<TreeNode>,
    m: LeafManagerView,
    lo: Option<Seq<u8>>,
    hi: Option<Seq<u8>>,
)
    requires
        seq_wf(keys, children, m, lo, hi),
        keys.len() == 4,
    ensures
        lo matches Some(l) ==> key_lt(l, keys[2]),
        hi matches Some(h) ==> key_lt(keys[2], h),
        seq_wf(keys.subrange(0, 2), children.subrange(0, 3), m, lo, Some(keys[2])),
        seq_wf(keys.subrange(3, 4), children.subrange(3, 5), m, Some(keys[2]), hi),
        forall|k: Seq<u8>|
            seq_lookup(keys, children, m, k) == (if key_lt(k, keys[2]) {
                seq_lookup(keys.subrange(0, 2), children.subrange(0, 3), m, k)
            } else {
                seq_lookup(keys.subrange(3, 4), children.subrange(3, 5), m, k)
            }),
        forall|p: int|
            !(seq_owned(children.subrange(0, 3), p) && seq_owned(children.subrange(3, 5), p)),
        forall|p: int| seq_owned(children.subrange(0, 3), p) ==> seq_owned(children, p),
        forall|p: int| seq_owned(children.subrange(3, 5), p) ==> seq_owned(children, p),
{
    let lk = keys.subrange(0, 2);
    let rk = keys.subrange(3, 4);
    let lc = children.subrange(0, 3);
    let rc = children.subrange(3, 5);
    let up = keys[2];
    if lo is Some {
        assert(key_lt(keys[0], keys[2]));
        lemma_key_lt_transitive(lo->0, keys[0], keys[2]);
    }
    if hi is Some {
        assert(key_lt(keys[2], keys[3]));
        lemma_key_lt_transitive(keys[2], keys[3], hi->0);
    }
    assert(key_lt(keys[1], keys[2]));
    assert(key_lt(keys[2], keys[3]));
    assert forall|i: int| 0 <= i < lc.len() implies (#[trigger] lc[i]).wf(
        m,
        seq_lower(lk, i, lo),
        seq_upper(lk, i, Some(up)),
    ) by {
        assert(lc[i] == children[i]);
        assert(seq_lower(lk, i, lo) == seq_lower(keys, i, lo));
        assert(seq_upper(lk, i, Some(up)) == seq_upper(keys, i, hi));
    }
    assert forall|i: int| 0 <= i < rc.len() implies (#[trigger] rc[i]).wf(
        m,
        seq_lower(rk, i, Some(up)),
        seq_upper(rk, i, hi),
    ) by {
        assert(rc[i] == children[i + 3]);
        assert(seq_lower(rk, i, Some(up)) == seq_lower(keys, i + 3, lo));
        assert(seq_upper(rk, i, hi) == seq_upper(keys, i + 3, hi));
    }
    assert forall|i: int, j: int, p: int|
        0 <= i < lc.len() && 0 <= j < lc.len() && i != j implies !(#[trigger] lc[i].owned(p)
        && #[trigger] lc[j].owned(p)) by {
        assert(!(children[i].owned(p) && children[j].owned(p)));
    }
    assert forall|i: int, j: int, p: int|
        0 <= i < rc.len() && 0 <= j < rc.len() && i != j implies !(#[trigger] rc[i].owned(p)
        && #[trigger] rc[j].owned(p)) by {
        assert(!(children[i + 3].owned(p) && children[j + 3].owned(p)));
    }
    assert forall|i: int, j: int| 0 <= i < j < lk.len() implies key_lt(lk[i], lk[j]) by {
        assert(key_lt(keys[i], keys[j]));
    }
    assert forall|k: Seq<u8>|
        seq_lookup(keys, children, m, k) == (if key_lt(k, keys[2]) {
            seq_lookup(lk, lc, m, k)
        } else {
            seq_lookup(rk, rc, m, k)
        }) by {
        lemma_route_split(keys, k);
        lemma_child_index(keys, k);
        let j = child_index(keys, k);
        if key_lt(k, keys[2]) {
            assert(lc[j] == children[j]);
        } else {
            assert(rc[j - 3] == children[j]);
        }
    }
    assert forall|p: int| !(seq_owned(lc, p) && seq_owned(rc, p)) by {
        if seq_owned(lc, p) && seq_owned(rc, p) {
            let i = choose|i: int| 0 <= i < lc.len() && (#[trigger] lc[i]).owned(p);
            let j = choose|j: int| 0 <= j < rc.len() && (#[trigger] rc[j]).owned(p);
            assert(!(children[i].owned(p) && children[j + 3].owned(p)));
        }
    }
    assert forall|p: int| seq_owned(lc, p) implies seq_owned(children, p) by {
        let i = choose|i: int| 0 <= i < lc.len() && (#[trigger] lc[i]).owned(p);
        assert(children[i].owned(p));
    }
    assert forall|p: int| seq_owned(rc, p) implies seq_owned(children, p) by {
        let j = choose|j: int| 0 <= j < rc.len() && (#[trigger] rc[j]).owned(p);
        assert(children[j + 3].owned(p));
    }
}


impl TreeNode {
    /// What an insert without a split of this node leaves behind: a sound
    /// subtree within the same bounds that maps `key` to `value` and every
    /// other key as before.
    pub open spec fn updated(
        self,
        m: LeafManagerView,
        before: TreeNode,
        a: LeafManagerView,
        lo: Option<Seq<u8>>,
        hi: Option<Seq<u8>>,
        key: Seq<u8>,
        value: Seq<u8>,
    ) -> bool {
        &&& self.wf(m, lo, hi)
        &&& self.root_flag() == before.root_flag()
        &&& forall|p: int| self.owned(p) ==> before.owned(p) || !a.is_mapped(p)
        &&& forall|k: Seq<u8>|
            self.lookup(m, k) == (if k == key {
                Some(value)
            } else {
                before.lookup(a, k)
            })
    }

    /// What an insert with a split of this node leaves behind: two sound
    /// subtrees on pages of their own, this one below the split key and the
    /// sibling from it on, that together map `key` to `value` and every
    /// other key as before.
    pub open spec fn updated_with_split(
        self,
        m: LeafManagerView,
        sibling: TreeNode,
        up: Seq<u8>,
        before: TreeNode,
        a: LeafManagerView,
        lo: Option<Seq<u8>>,
        hi: Option<Seq<u8>>,
        key: Seq<u8>,
        value: Seq<u8>,
    ) -> bool {
        &&& lo matches Some(l) ==> key_lt(l, up)
        &&& hi matches Some(h) ==> key_lt(up, h)
        &&& self.wf(m, lo, Some(up))
        &&& sibling.wf(m, Some(up), hi)
        &&& self.root_flag() == before.root_flag()
        &&& !sibling.root_flag()
        &&& forall|p: int| self.owned(p) ==> before.owned(p) || !a.is_mapped(p)
        &&& forall|p: int| sibling.owned(p) ==> before.owned(p) || !a.is_mapped(p)
        &&& forall|p: int| !(self.owned(p) && sibling.owned(p))
        &&& forall|k: Seq<u8>|
            (if k == key {
                Some(value)
            } else {
                before.lookup(a, k)
            }) == (if key_lt(k, up) {
                self.lookup(m, k)
            } else {
                sibling.lookup(m, k)
            })
    }

    pub fn is_root(&self) -> (root: bool)
        ensures
            root == self.root_flag(),
    {
        match self {
            TreeNode::Leaf(leaf) => leaf.is_root(),
            TreeNode::Inner(inner) => inner.is_root(),
        }
    }

    pub fn is_leaf(&self) -> (leaf: bool)
        ensures
            leaf == (self is Leaf),
    {
        match self {
            TreeNode::Leaf(_) => true,
            TreeNode::Inner(_) => false,
        }
    }

    /// Whether an insert may make this node split: a leaf whose slots are
    /// all taken, an inner node that holds all separators it may.
    pub fn may_need_split(&self) -> (full: bool)
        ensures
            full == (match *self {
                TreeNode::Leaf(leaf) => leaf.header().full(),
                TreeNode::Inner(inner) => inner.keys().len() == 3,
            }),
    {
        match self {
            TreeNode::Leaf(leaf) => leaf.may_need_split(),
            TreeNode::Inner(inner) => inner.may_need_split(),
        }
    }

    /// The value stored for `key`: an empty one where the key was deleted,
    /// `None` where the subtree does not know the key.
    pub fn get(&self, leaf_manager: &LeafManager, key: &Vec<u8>) -> (res: Result<
        Option<Vec<u8>>,
        StoreError,
    >)
        requires
            self.wf(leaf_manager@, None, None),
        ensures
            match res {
                Ok(Some(value)) => self.lookup(leaf_manager@, key@) == Some(value@),
                Ok(None) => self.lookup(leaf_manager@, key@) is None,
                Err(_) => false,
            },
        decreases *self,
    {
        match self {
            TreeNode::Leaf(leaf) => leaf.get(leaf_manager, key),
            TreeNode::Inner(inner) => {
                let index: usize = inner.get_child_index(key);
                proof {
                    lemma_child_index(inner.keys(), key@);
                    lemma_node_weaken(
                        inner.children()[index as int],
                        leaf_manager@,
                        inner.lower(index as int, None),
                        inner.upper(index as int, None),
                        None,
                        None,
                    );
                }
                inner.children[index].get(leaf_manager, key)
            },
        }
    }
}

impl Inner {
    /// The value stored for `key` under the child that `key` is routed to.
    pub fn get(&self, leaf_manager: &LeafManager, key: &Vec<u8>) -> (res: Result<
        Option<Vec<u8>>,
        StoreError,
    >)
        requires
            self.children().len() == self.keys().len() + 1,
            forall|i: int|
                0 <= i < self.children().len() ==> (#[trigger] self.children()[i]).wf(
                    leaf_manager@,
                    None,
                    None,
                ),
        ensures
            match res {
                Ok(Some(value)) => seq_lookup(self.keys(), self.children(), leaf_manager@, key@)
                    == Some(value@),
                Ok(None) => seq_lookup(self.keys(), self.children(), leaf_manager@, key@) is None,
                Err(_) => false,
            },
    {
        proof {
            lemma_child_index(self.keys(), key@);
        }
        match self.get_child(key) {
            Some(child) => child.get(leaf_manager, key),
            None => Ok(None),
        }
    }
}


/// A leaf that took a pair is a subtree that took it.
proof fn lemma_leaf_updated(
    before: Leaf,
    a: LeafManagerView,
    after: Leaf,
    m: LeafManagerView,
    lo: Option<Seq<u8>>,
    hi: Option<Seq<u8>>,
    key: Seq<u8>,
    value: Seq<u8>,
)
    requires
        TreeNode::Leaf(before).wf(a, lo, hi),
        in_range(key, lo, hi),
        after.inserted(m, before, a, key, value),
    ensures
        TreeNode::Leaf(after).updated(m, TreeNode::Leaf(before), a, lo, hi, key, value),
{
    assert forall|k: Seq<u8>| after.lookup(m, k) is Some implies in_range(k, lo, hi) by {
        assert(after.lookup(m, k) == (if k == key {
            Some(value)
        } else {
            before.lookup(a, k)
        }));
    }
}

/// A leaf that took a pair and split is a subtree that took it and split.
#[verifier::rlimit(50)]
proof fn lemma_leaf_updated_with_split(
    before: Leaf,
    a: LeafManagerView,
    after: Leaf,
    sibling: Leaf,
    up: Seq<u8>,
    m: LeafManagerView,
    lo: Option<Seq<u8>>,
    hi: Option<Seq<u8>>,
    key: Seq<u8>,
    value: Seq<u8>,
)
    requires
        TreeNode::Leaf(before).wf(a, lo, hi),
        in_range(key, lo, hi),
        after.inserted_with_split(m, sibling, up, before, a, key, value),
    ensures
        TreeNode::Leaf(after).updated_with_split(
            m,
            TreeNode::Leaf(sibling),
            up,
            TreeNode::Leaf(before),
            a,
            lo,
            hi,
            key,
            value,
        ),
{
    assert forall|k: Seq<u8>| after.lookup(m, k) is Some implies in_range(k, lo, Some(up)) by {
        assert((if k == key {
            Some(value)
        } else {
            before.lookup(a, k)
        }) == (if key_lt(k, up) {
            after.lookup(m, k)
        } else {
            sibling.lookup(m, k)
        }));
        assert(key_lt(k, up));
        if k != key {
            assert(before.lookup(a, k) is Some);
            assert(in_range(k, lo, hi));
        }
    }
    assert forall|k: Seq<u8>| sibling.lookup(m, k) is Some implies in_range(k, Some(up), hi) by {
        assert((if k == key {
            Some(value)
        } else {
            before.lookup(a, k)
        }) == (if key_lt(k, up) {
            after.lookup(m, k)
        } else {
            sibling.lookup(m, k)
        }));
        assert(!key_lt(k, up));
        lemma_key_lt_total(k, up);
        if k != key {
            assert(before.lookup(a, k) is Some);
            assert(in_range(k, lo, hi));
        }
    }
    // the split key lies strictly within the bounds
    let k0 = choose|k: Seq<u8>| after.lookup(m, k) is Some;
    assert(in_range(k0, lo, Some(up)));
    if lo is Some {
        lemma_key_le_transitive(lo->0, k0, up);
    }
    assert(in_range(up, Some(up), hi));
}

/// An inner node that took a pair below without splitting itself.
#[verifier::rlimit(50)]
proof fn lemma_inner_updated(
    before: Inner,
    a: LeafManagerView,
    after: Inner,
    b: LeafManagerView,
    lo: Option<Seq<u8>>,
    hi: Option<Seq<u8>>,
    key: Seq<u8>,
    value: Seq<u8>,
)
    requires
        TreeNode::Inner(before).wf(a, lo, hi),
        after.root_flag() == before.root_flag(),
        after.keys().len() <= 3,
        seq_wf(after.keys(), after.children(), b, lo, hi),
        forall|k: Seq<u8>|
            seq_lookup(after.keys(), after.children(), b, k) == (if k == key {
                Some(value)
            } else {
                seq_lookup(before.keys(), before.children(), a, k)
            }),
        forall|p: int|
            seq_owned(after.children(), p) ==> seq_owned(before.children(), p) || !a.is_mapped(p),
    ensures
        TreeNode::Inner(after).updated(b, TreeNode::Inner(before), a, lo, hi, key, value),
{
    let node = TreeNode::Inner(after);
    let old_node = TreeNode::Inner(before);
    assert forall|i: int| 0 <= i < after.children().len() implies (
    #[trigger] after.children()[i]).wf(b, after.lower(i, lo), after.upper(i, hi)) by {
        assert(after.lower(i, lo) == seq_lower(after.keys(), i, lo));
        assert(after.upper(i, hi) == seq_upper(after.keys(), i, hi));
    }
    assert(node.wf(b, lo, hi));
    assert forall|k: Seq<u8>|
        node.lookup(b, k) == (if k == key {
            Some(value)
        } else {
            old_node.lookup(a, k)
        }) by {
        assert(node.lookup(b, k) == seq_lookup(after.keys(), after.children(), b, k));
        assert(old_node.lookup(a, k) == seq_lookup(before.keys(), before.children(), a, k));
    }
    assert forall|p: int| node.owned(p) implies old_node.owned(p) || !a.is_mapped(p) by {
        assert(seq_owned(after.children(), p));
        if seq_owned(before.children(), p) {
            assert(old_node.owned(p));
        }
    }
}

/// An inner node that took a pair below and split.
#[verifier::rlimit(50)]
proof fn lemma_inner_updated_with_split(
    before: Inner,
    a: LeafManagerView,
    left: Inner,
    right: Inner,
    up: Seq<u8>,
    b: LeafManagerView,
    lo: Option<Seq<u8>>,
    hi: Option<Seq<u8>>,
    key: Seq<u8>,
    value: Seq<u8>,
    keys: Seq<Seq<u8>>,
    children: Seq<TreeNode>,
)
    requires
        TreeNode::Inner(before).wf(a, lo, hi),
        left.root_flag() == before.root_flag(),
        !right.root_flag(),
        keys.len() == 4,
        seq_wf(keys, children, b, lo, hi),
        up == keys[2],
        left.keys() == keys.subrange(0, 2),
        left.children() == children.subrange(0, 3),
        right.keys() == keys.subrange(3, 4),
        right.children() == children.subrange(3, 5),
        forall|k: Seq<u8>|
            seq_lookup(keys, children, b, k) == (if k == key {
                Some(value)
            } else {
                seq_lookup(before.keys(), before.children(), a, k)
            }),
        forall|p: int| seq_owned(children, p) ==> seq_owned(before.children(), p) || !a.is_mapped(p),
    ensures
        TreeNode::Inner(left).updated_with_split(
            b,
            TreeNode::Inner(right),
            up,
            TreeNode::Inner(before),
            a,
            lo,
            hi,
            key,
            value,
        ),
{
    let l = TreeNode::Inner(left);
    let r = TreeNode::Inner(right);
    let old_node = TreeNode::Inner(before);
    lemma_inner_split(keys, children, b, lo, hi);
    assert forall|i: int| 0 <= i < left.children().len() implies (
    #[trigger] left.children()[i]).wf(b, left.lower(i, lo), left.upper(i, Some(up))) by {
        assert(left.lower(i, lo) == seq_lower(left.keys(), i, lo));
        assert(left.upper(i, Some(up)) == seq_upper(left.keys(), i, Some(up)));
    }
    assert forall|i: int| 0 <= i < right.children().len() implies (
    #[trigger] right.children()[i]).wf(b, right.lower(i, Some(up)), right.upper(i, hi)) by {
        assert(right.lower(i, Some(up)) == seq_lower(right.keys(), i, Some(up)));
        assert(right.upper(i, hi) == seq_upper(right.keys(), i, hi));
    }
    assert(l.wf(b, lo, Some(up)));
    assert(r.wf(b, Some(up), hi));
    assert forall|k: Seq<u8>|
        (if k == key {
            Some(value)
        } else {
            old_node.lookup(a, k)
        }) == (if key_lt(k, up) {
            l.lookup(b, k)
        } else {
            r.lookup(b, k)
        }) by {
        assert(l.lookup(b, k) == seq_lookup(left.keys(), left.children(), b, k));
        assert(r.lookup(b, k) == seq_lookup(right.keys(), right.children(), b, k));
        assert(old_node.lookup(a, k) == seq_lookup(before.keys(), before.children(), a, k));
        assert(seq_lookup(keys, children, b, k) == (if k == key {
            Some(value)
        } else {
            seq_lookup(before.keys(), before.children(), a, k)
        }));
    }
    assert forall|p: int| l.owned(p) implies old_node.owned(p) || !a.is_mapped(p) by {
        assert(seq_owned(left.children(), p));
        assert(seq_owned(children, p));
        if seq_owned(before.children(), p) {
            assert(old_node.owned(p));
        }
    }
    assert forall|p: int| r.owned(p) implies old_node.owned(p) || !a.is_mapped(p) by {
        assert(seq_owned(right.children(), p));
        assert(seq_owned(children, p));
        if seq_owned(before.children(), p) {
            assert(old_node.owned(p));
        }
    }
    assert forall|p: int| !(l.owned(p) && r.owned(p)) by {
        if l.owned(p) && r.owned(p) {
            assert(seq_owned(left.children(), p));
            assert(seq_owned(right.children(), p));
        }
    }
}

/// A leaf that took a pair stands in the chain where it stood.
proof fn lemma_leaf_linked(
    before: Leaf,
    a: LeafManagerView,
    after: Leaf,
    m: LeafManagerView,
    key: Seq<u8>,
    value: Seq<u8>,
    next: Option<usize>,
)
    requires
        TreeNode::Leaf(before).chained(next),
        after.inserted(m, before, a, key, value),
    ensures
        TreeNode::Leaf(after).linked(TreeNode::Leaf(before), next),
{
}

/// A leaf that took a pair and split has its sibling behind it, and the
/// sibling has behind it what the leaf had.
proof fn lemma_leaf_linked_with_split(
    before: Leaf,
    a: LeafManagerView,
    after: Leaf,
    sibling: Leaf,
    up: Seq<u8>,
    m: LeafManagerView,
    key: Seq<u8>,
    value: Seq<u8>,
    next: Option<usize>,
)
    requires
        TreeNode::Leaf(before).chained(next),
        after.inserted_with_split(m, sibling, up, before, a, key, value),
    ensures
        TreeNode::Leaf(after).linked_with_split(
            TreeNode::Leaf(sibling),
            TreeNode::Leaf(before),
            next,
        ),
{
    assert(m.is_mapped(sibling.id() as int));
}

/// The chain of an inner node whose child took a pair without splitting.
#[verifier::rlimit(50)]
proof fn lemma_chain_updated(
    children: Seq<TreeNode>,
    child: TreeNode,
    idx: int,
    next: Option<usize>,
)
    requires
        seq_chained(children, next),
        0 <= idx < children.len(),
        child.linked(children[idx], seq_next(children, idx, next)),
    ensures
        seq_chained(children.update(idx, child), next),
        children.update(idx, child)[0].first_id() == children[0].first_id(),
{
    let after = children.update(idx, child);
    assert forall|i: int| 0 <= i < after.len() implies (#[trigger] after[i]).chained(
        seq_next(after, i, next),
    ) by {
        assert(children[i].chained(seq_next(children, i, next)));
        assert(seq_next(after, i, next) == seq_next(children, i, next));
    }
}

/// The place of one child in the chain of an inner node whose child took
/// a pair and split.
#[verifier::rlimit(50)]
proof fn lemma_chain_split_at(
    children: Seq<TreeNode>,
    child: TreeNode,
    sibling: TreeNode,
    idx: int,
    next: Option<usize>,
    i: int,
)
    requires
        seq_chained(children, next),
        0 <= idx < children.len(),
        child.linked_with_split(sibling, children[idx], seq_next(children, idx, next)),
        0 <= i < children.len() + 1,
    ensures
        children.update(idx, child).insert(idx + 1, sibling)[i].chained(
            seq_next(children.update(idx, child).insert(idx + 1, sibling), i, next),
        ),
{
    let after = children.update(idx, child).insert(idx + 1, sibling);
    if i < idx {
        assert(after[i] == children[i]);
        assert(children[i].chained(seq_next(children, i, next)));
        if i + 1 == idx {
            assert(after[i + 1] == child);
        } else {
            assert(after[i + 1] == children[i + 1]);
        }
    } else if i == idx {
        assert(after[i] == child);
        assert(after[i + 1] == sibling);
    } else if i == idx + 1 {
        assert(after[i] == sibling);
        if i + 1 < after.len() {
            assert(after[i + 1] == children[idx + 1]);
        }
    } else {
        assert(after[i] == children[i - 1]);
        assert(children[i - 1].chained(seq_next(children, i - 1, next)));
        if i + 1 < after.len() {
            assert(after[i + 1] == children[i]);
        }
    }
}

/// The chain of an inner node whose child took a pair and split.
proof fn lemma_chain_split(
    children: Seq<TreeNode>,
    child: TreeNode,
    sibling: TreeNode,
    idx: int,
    next: Option<usize>,
)
    requires
        seq_chained(children, next),
        0 <= idx < children.len(),
        child.linked_with_split(sibling, children[idx], seq_next(children, idx, next)),
    ensures
        seq_chained(children.update(idx, child).insert(idx + 1, sibling), next),
        children.update(idx, child).insert(idx + 1, sibling)[0].first_id() == children[0].first_id(),
{
    let after = children.update(idx, child).insert(idx + 1, sibling);
    assert forall|i: int| 0 <= i < after.len() implies (#[trigger] after[i]).chained(
        seq_next(after, i, next),
    ) by {
        lemma_chain_split_at(children, child, sibling, idx, next, i);
    }
    if idx == 0 {
        assert(after[0] == child);
    } else {
        assert(after[0] == children[0]);
    }
}

/// The chain of the halves of an inner node that split.
#[verifier::rlimit(50)]
proof fn lemma_chain_inner_split(children: Seq<TreeNode>, next: Option<usize>)
    requires
        seq_chained(children, next),
        children.len() == 5,
    ensures
        seq_chained(children.subrange(0, 3), Some(children.subrange(3, 5)[0].first_id())),
        seq_chained(children.subrange(3, 5), next),
        children.subrange(0, 3)[0].first_id() == children[0].first_id(),
{
    let left = children.subrange(0, 3);
    let right = children.subrange(3, 5);
    assert forall|i: int| 0 <= i < left.len() implies (#[trigger] left[i]).chained(
        seq_next(left, i, Some(right[0].first_id())),
    ) by {
        assert(left[i] == children[i]);
        assert(children[i].chained(seq_next(children, i, next)));
        if i + 1 < 3 {
            assert(left[i + 1] == children[i + 1]);
        } else {
            assert(right[0] == children[3]);
        }
    }
    assert forall|i: int| 0 <= i < right.len() implies (#[trigger] right[i]).chained(
        seq_next(right, i, next),
    ) by {
        assert(right[i] == children[i + 3]);
        assert(children[i + 3].chained(seq_next(children, i + 3, next)));
        if i + 1 < 2 {
            assert(right[i + 1] == children[i + 4]);
        }
    }
}

/// An inner node is chained as its children are, and begins with its
/// first child.
proof fn lemma_inner_linked(inner: Inner, next: Option<usize>)
    requires
        inner.children().len() > 0,
    ensures
        TreeNode::Inner(inner).chained(next) == seq_chained(inner.children(), next),
        TreeNode::Inner(inner).first_id() == inner.children()[0].first_id(),
{
}

/// The split that an insert reports, with its key as a plain value.
pub open spec fn split_of(split: Option<(Vec<u8>, TreeNode)>) -> Option<(Seq<u8>, TreeNode)> {
    match split {
        Some((up, sibling)) => Some((up@, sibling)),
        None => None,
    }
}

/// The separators of an inner node, followed by the split key and the
/// separators of the sibling where the node split.
pub open spec fn joined_keys(node: Inner, split: Option<(Seq<u8>, TreeNode)>) -> Seq<Seq<u8>> {
    match split {
        Some((up, TreeNode::Inner(right))) => node.keys() + seq![up] + right.keys(),
        _ => node.keys(),
    }
}

/// The children of an inner node, followed by those of the sibling where
/// the node split.
pub open spec fn joined_children(node: Inner, split: Option<(Seq<u8>, TreeNode)>) -> Seq<
    TreeNode,
> {
    match split {
        Some((_, TreeNode::Inner(right))) => node.children() + right.children(),
        _ => node.children(),
    }
}

impl TreeNode {
    /// Every taken slot of every leaf of the subtree reads under `m` what
    /// it read under `a`.
    pub open spec fn reads_kept(self, m: LeafManagerView, a: LeafManagerView) -> bool
        decreases self,
    {
        match self {
            TreeNode::Leaf(leaf) => leaf.reads_kept(m, a),
            TreeNode::Inner(inner) => forall|i: int|
                0 <= i < inner.children().len() ==> (#[trigger] inner.children()[i]).reads_kept(
                    m,
                    a,
                ),
        }
    }
}

/// A subtree whose pages kept their bytes reads as before.
pub proof fn lemma_node_reads_kept(
    node: TreeNode,
    a: LeafManagerView,
    b: LeafManagerView,
    lo: Option<Seq<u8>>,
    hi: Option<Seq<u8>>,
)
    requires
        node.wf(a, lo, hi),
        b.wf(),
        forall|p: int| node.owned(p) ==> b.is_mapped(p) && a.same_page(b, p),
    ensures
        node.reads_kept(b, a),
    decreases node,
{
    match node {
        TreeNode::Leaf(leaf) => {
            lemma_leaf_preserved(leaf, a, b);
        },
        TreeNode::Inner(inner) => {
            assert forall|i: int| 0 <= i < inner.children().len() implies (
            #[trigger] inner.children()[i]).reads_kept(b, a) by {
                let child = inner.children()[i];
                assert forall|p: int| child.owned(p) implies b.is_mapped(p) && a.same_page(b, p) by {
                    assert(node.owned(p));
                }
                lemma_node_reads_kept(child, a, b, inner.lower(i, lo), inner.upper(i, hi));
            }
        },
    }
}

/// The children that a key is not routed to read as before after the
/// child that it is routed to took the key.
pub proof fn lemma_others_kept(
    before: Inner,
    a: LeafManagerView,
    b: LeafManagerView,
    idx: int,
    lo: Option<Seq<u8>>,
    hi: Option<Seq<u8>>,
    next: Option<usize>,
    key: Seq<u8>,
)
    requires
        insert_ctx(before, a, b, idx, lo, hi, next, key),
    ensures
        forall|j: int|
            0 <= j < before.children().len() && j != idx ==> (
            #[trigger] before.children()[j]).reads_kept(b, a),
{
    assert forall|j: int| 0 <= j < before.children().len() && j != idx implies (
    #[trigger] before.children()[j]).reads_kept(b, a) by {
        let child = before.children()[j];
        assert forall|p: int| child.owned(p) implies b.is_mapped(p) && a.same_page(b, p) by {
            lemma_node_owned_mapped(child, a, before.lower(j, lo), before.upper(j, hi), p);
            assert(!(before.children()[j].owned(p) && before.children()[idx].owned(p)));
        }
        lemma_node_reads_kept(child, a, b, before.lower(j, lo), before.upper(j, hi));
    }
}

impl TreeNode {
    /// The shape that an insert of the pair gives the subtree `before`:
    /// this node under `m`, with the sibling of `split` where the node
    /// split.
    ///
    /// A leaf places the pair as `Leaf::placed` says, after a split in the
    /// middle where it was full. An inner node hands the pair to the child
    /// that the key is routed to and leaves the others alone, which read
    /// as before; where that
    /// child split, its split key and its sibling stand behind it; and a
    /// node that then has four separators keeps two of them and three
    /// children, hands the third separator up and leaves the rest to its
    /// sibling.
    pub open spec fn reshaped(
        self,
        m: LeafManagerView,
        split: Option<(Seq<u8>, TreeNode)>,
        before: TreeNode,
        a: LeafManagerView,
        key: Seq<u8>,
        value: Seq<u8>,
    ) -> bool
        decreases before,
    {
        match before {
            TreeNode::Leaf(b) => match (self, split) {
                (TreeNode::Leaf(l), None) => l.placed(m, b, a, key, value),
                (TreeNode::Leaf(l), Some((up, TreeNode::Leaf(r)))) => l.split_then_placed(
                    m,
                    r,
                    up,
                    b,
                    a,
                    key,
                    value,
                ),
                _ => false,
            },
            TreeNode::Inner(b) => match self {
                TreeNode::Inner(n) => {
                    let i = child_index(b.keys(), key);
                    let keys = joined_keys(n, split);
                    let children = joined_children(n, split);
                    &&& 0 <= i < b.children().len()
                    &&& forall|j: int|
                        0 <= j < b.children().len() && j != i ==> (
                        #[trigger] b.children()[j]).reads_kept(m, a)
                    &&& match split {
                        None => keys.len() <= 3,
                        Some((_, sibling)) => {
                            &&& sibling is Inner
                            &&& n.keys().len() == 2
                            &&& n.children().len() == 3
                            &&& keys.len() == 4
                        },
                    }
                    &&& if children.len() == b.children().len() {
                        &&& keys == b.keys()
                        &&& children == b.children().update(i, children[i])
                        &&& children[i].reshaped(m, None, b.children()[i], a, key, value)
                    } else {
                        &&& i + 1 < children.len()
                        &&& keys == b.keys().insert(i, keys[i])
                        &&& children == b.children().update(i, children[i]).insert(
                            i + 1,
                            children[i + 1],
                        )
                        &&& children[i].reshaped(
                            m,
                            Some((keys[i], children[i + 1])),
                            b.children()[i],
                            a,
                            key,
                            value,
                        )
                    }
                },
                _ => false,
            },
        }
    }
}

/// The shape of an inner node after the child that the key is routed to
/// took the pair.
pub proof fn lemma_reshaped_inner(
    before: Inner,
    a: LeafManagerView,
    after: Inner,
    m: LeafManagerView,
    right: Option<(Seq<u8>, Inner)>,
    index: int,
    child: TreeNode,
    child_split: Option<(Seq<u8>, TreeNode)>,
    key: Seq<u8>,
    value: Seq<u8>,
)
    requires
        index == child_index(before.keys(), key),
        0 <= index < before.children().len(),
        before.keys().len() <= 3,
        before.children().len() == before.keys().len() + 1,
        child.reshaped(m, child_split, before.children()[index], a, key, value),
        forall|j: int|
            0 <= j < before.children().len() && j != index ==> (
            #[trigger] before.children()[j]).reads_kept(m, a),
        match child_split {
            None => {
                &&& right is None
                &&& after.keys() == before.keys()
                &&& after.children() == before.children().update(index, child)
            },
            Some((child_up, child_sibling)) => {
                let keys = before.keys().insert(index, child_up);
                let children = before.children().update(index, child).insert(
                    index + 1,
                    child_sibling,
                );
                if keys.len() <= 3 {
                    &&& right is None
                    &&& after.keys() == keys
                    &&& after.children() == children
                } else {
                    &&& right matches Some((up, sibling))
                    &&& up == keys[2]
                    &&& after.keys() == keys.subrange(0, 2)
                    &&& after.children() == children.subrange(0, 3)
                    &&& sibling.keys() == keys.subrange(3, keys.len() as int)
                    &&& sibling.children() == children.subrange(3, children.len() as int)
                }
            },
        },
    ensures
        TreeNode::Inner(after).reshaped(
            m,
            match right {
                Some((up, sibling)) => Some((up, TreeNode::Inner(sibling))),
                None => None,
            },
            TreeNode::Inner(before),
            a,
            key,
            value,
        ),
{
    let split: Option<(Seq<u8>, TreeNode)> = match right {
        Some((up, sibling)) => Some((up, TreeNode::Inner(sibling))),
        None => None,
    };
    let keys = joined_keys(after, split);
    let children = joined_children(after, split);
    match child_split {
        None => {
            assert(children[index] == child);
        },
        Some((child_up, child_sibling)) => {
            let keys2 = before.keys().insert(index, child_up);
            let children2 = before.children().update(index, child).insert(
                index + 1,
                child_sibling,
            );
            assert(keys =~= keys2);
            assert(children =~= children2);
            assert(children[index] == child);
            assert(children[index + 1] == child_sibling);
            assert(keys[index] == child_up);
        },
    }
}

/// What is known of an inner node when the child that a key is routed to
/// has taken the key.
pub open spec fn insert_ctx(
    before: Inner,
    a: LeafManagerView,
    b: LeafManagerView,
    idx: int,
    lo: Option<Seq<u8>>,
    hi: Option<Seq<u8>>,
    next: Option<usize>,
    key: Seq<u8>,
) -> bool {
    &&& TreeNode::Inner(before).wf(a, lo, hi)
    &&& TreeNode::Inner(before).chained(next)
    &&& idx == child_index(before.keys(), key)
    &&& 0 <= idx < before.children().len()
    &&& b.wf()
    &&& forall|p: int| a.is_mapped(p) ==> b.is_mapped(p)
    &&& forall|p: int|
        a.is_mapped(p) && !before.children()[idx].owned(p) ==> #[trigger] a.same_page(b, p)
}

/// The child took the key without splitting.
#[verifier::rlimit(50)]
proof fn lemma_insert_none(
    before: Inner,
    a: LeafManagerView,
    after: Inner,
    b: LeafManagerView,
    idx: int,
    lo: Option<Seq<u8>>,
    hi: Option<Seq<u8>>,
    next: Option<usize>,
    key: Seq<u8>,
    value: Seq<u8>,
)
    requires
        insert_ctx(before, a, b, idx, lo, hi, next, key),
        after.root_flag() == before.root_flag(),
        after.keys() == before.keys(),
        after.children() == before.children().update(idx, after.children()[idx]),
        after.children()[idx].updated(
            b,
            before.children()[idx],
            a,
            before.lower(idx, lo),
            before.upper(idx, hi),
            key,
            value,
        ),
        after.children()[idx].linked(
            before.children()[idx],
            seq_next(before.children(), idx, next),
        ),
    ensures
        TreeNode::Inner(after).updated(b, TreeNode::Inner(before), a, lo, hi, key, value),
        TreeNode::Inner(after).linked(TreeNode::Inner(before), next),
{
    let keys = before.keys();
    let children = before.children();
    let child = after.children()[idx];
    assert(seq_wf(keys, children, a, lo, hi));
    lemma_child_updated(keys, children, a, child, b, idx, lo, hi, key, value);
    lemma_inner_updated(before, a, after, b, lo, hi, key, value);
    lemma_inner_linked(before, next);
    lemma_chain_updated(children, child, idx, next);
    lemma_inner_linked(after, next);
}

/// The child took the key and split.
#[verifier::rlimit(50)]
proof fn lemma_insert_split(
    before: Inner,
    a: LeafManagerView,
    child: TreeNode,
    sibling: TreeNode,
    up: Seq<u8>,
    b: LeafManagerView,
    idx: int,
    lo: Option<Seq<u8>>,
    hi: Option<Seq<u8>>,
    next: Option<usize>,
    key: Seq<u8>,
    value: Seq<u8>,
)
    requires
        insert_ctx(before, a, b, idx, lo, hi, next, key),
        child.updated_with_split(
            b,
            sibling,
            up,
            before.children()[idx],
            a,
            before.lower(idx, lo),
            before.upper(idx, hi),
            key,
            value,
        ),
        child.linked_with_split(
            sibling,
            before.children()[idx],
            seq_next(before.children(), idx, next),
        ),
    ensures
        ({
            let keys = before.keys().insert(idx, up);
            let children = before.children().update(idx, child).insert(idx + 1, sibling);
            &&& child_index(before.keys(), up) == idx
            &&& keys.len() == before.keys().len() + 1
            &&& children.len() == before.children().len() + 1
            &&& seq_wf(keys, children, b, lo, hi)
            &&& seq_chained(children, next)
            &&& children[0].first_id() == before.children()[0].first_id()
            &&& forall|k: Seq<u8>|
                seq_lookup(keys, children, b, k) == (if k == key {
                    Some(value)
                } else {
                    seq_lookup(before.keys(), before.children(), a, k)
                })
            &&& forall|p: int|
                seq_owned(children, p) ==> seq_owned(before.children(), p) || !a.is_mapped(p)
        }),
{
    let keys = before.keys();
    let children = before.children();
    assert(seq_wf(keys, children, a, lo, hi));
    lemma_child_split(keys, children, a, child, sibling, up, b, idx, lo, hi, key, value);
    lemma_inner_linked(before, next);
    lemma_chain_split(children, child, sibling, idx, next);
}

/// The split key and the sibling of the child fit into the node.
proof fn lemma_insert_fit(
    before: Inner,
    a: LeafManagerView,
    after: Inner,
    b: LeafManagerView,
    lo: Option<Seq<u8>>,
    hi: Option<Seq<u8>>,
    next: Option<usize>,
    key: Seq<u8>,
    value: Seq<u8>,
)
    requires
        TreeNode::Inner(before).wf(a, lo, hi),
        after.root_flag() == before.root_flag(),
        after.keys().len() <= 3,
        seq_wf(after.keys(), after.children(), b, lo, hi),
        seq_chained(after.children(), next),
        after.children()[0].first_id() == before.children()[0].first_id(),
        forall|k: Seq<u8>|
            seq_lookup(after.keys(), after.children(), b, k) == (if k == key {
                Some(value)
            } else {
                seq_lookup(before.keys(), before.children(), a, k)
            }),
        forall|p: int|
            seq_owned(after.children(), p) ==> seq_owned(before.children(), p) || !a.is_mapped(p),
    ensures
        TreeNode::Inner(after).updated(b, TreeNode::Inner(before), a, lo, hi, key, value),
        TreeNode::Inner(after).linked(TreeNode::Inner(before), next),
{
    lemma_inner_updated(before, a, after, b, lo, hi, key, value);
    lemma_inner_linked(before, next);
    lemma_inner_linked(after, next);
}

/// The split key and the sibling of the child made the node split.
#[verifier::rlimit(50)]
proof fn lemma_insert_over(
    before: Inner,
    a: LeafManagerView,
    left: Inner,
    right: Inner,
    up: Seq<u8>,
    b: LeafManagerView,
    lo: Option<Seq<u8>>,
    hi: Option<Seq<u8>>,
    next: Option<usize>,
    key: Seq<u8>,
    value: Seq<u8>,
    keys: Seq<Seq<u8>>,
    children: Seq<TreeNode>,
)
    requires
        TreeNode::Inner(before).wf(a, lo, hi),
        left.root_flag() == before.root_flag(),
        !right.root_flag(),
        keys.len() == 4,
        seq_wf(keys, children, b, lo, hi),
        seq_chained(children, next),
        children[0].first_id() == before.children()[0].first_id(),
        up == keys[2],
        left.keys() == keys.subrange(0, 2),
        left.children() == children.subrange(0, 3),
        right.keys() == keys.subrange(3, keys.len() as int),
        right.children() == children.subrange(3, children.len() as int),
        forall|k: Seq<u8>|
            seq_lookup(keys, children, b, k) == (if k == key {
                Some(value)
            } else {
                seq_lookup(before.keys(), before.children(), a, k)
            }),
        forall|p: int| seq_owned(children, p) ==> seq_owned(before.children(), p) || !a.is_mapped(p),
    ensures
        TreeNode::Inner(left).updated_with_split(
            b,
            TreeNode::Inner(right),
            up,
            TreeNode::Inner(before),
            a,
            lo,
            hi,
            key,
            value,
        ),
        TreeNode::Inner(left).linked_with_split(
            TreeNode::Inner(right),
            TreeNode::Inner(before),
            next,
        ),
{
    assert(keys.subrange(3, keys.len() as int) == keys.subrange(3, 4));
    assert(children.subrange(3, children.len() as int) == children.subrange(3, 5));
    lemma_inner_updated_with_split(
        before,
        a,
        left,
        right,
        up,
        b,
        lo,
        hi,
        key,
        value,
        keys,
        children,
    );
    lemma_chain_inner_split(children, next);
    lemma_inner_linked(before, next);
    lemma_inner_linked(left, Some(right.children()[0].first_id()));
    lemma_inner_linked(right, next);
}

impl TreeNode {
    /// Stores `key` with `value` in the leaf that `key` is routed to, and
    /// enters the split key and the new sibling of every node that splits
    /// into its parent. Where this node splits, its split key and sibling
    /// are returned.
    #[verifier::rlimit(50)]
    pub fn insert(
        &mut self,
        leaf_manager: &mut LeafManager,
        key: &Vec<u8>,
        value: &Vec<u8>,
        Ghost(lo): Ghost<Option<Seq<u8>>>,
        Ghost(hi): Ghost<Option<Seq<u8>>>,
        Ghost(next): Ghost<Option<usize>>,
    ) -> (res: Result<Option<(Vec<u8>, TreeNode)>, StoreError>)
        requires
            old(self).wf(old(leaf_manager)@, lo, hi),
            old(self).chained(next),
            in_range(key@, lo, hi),
            fits_page(4096, key@.len() as int, value@.len() as int),
        ensures
            final(leaf_manager)@.wf(),
            final(leaf_manager)@.grew_from(old(leaf_manager)@, 18),
            !old(self).leaf_splits_on(old(leaf_manager)@, key@) ==> final(leaf_manager)@.grew_from(
                old(leaf_manager)@,
                1,
            ),
            forall|p: int| old(leaf_manager)@.is_mapped(p) ==> final(leaf_manager)@.is_mapped(p),
            forall|p: int|
                old(leaf_manager)@.is_mapped(p) && !old(self).owned(p) ==> #[trigger] old(
                    leaf_manager,
                )@.same_page(final(leaf_manager)@, p),
            res matches Ok(split) ==> (split is Some) == old(self).splits_on(
                old(leaf_manager)@,
                key@,
            ),
            res matches Ok(split) ==> final(self).reshaped(
                final(leaf_manager)@,
                split_of(split),
                *old(self),
                old(leaf_manager)@,
                key@,
                value@,
            ),
            match res {
                Ok(None) => final(self).updated(
                    final(leaf_manager)@,
                    *old(self),
                    old(leaf_manager)@,
                    lo,
                    hi,
                    key@,
                    value@,
                ) && final(self).linked(*old(self), next),
                Ok(Some((up, sibling))) => final(self).updated_with_split(
                    final(leaf_manager)@,
                    sibling,
                    up@,
                    *old(self),
                    old(leaf_manager)@,
                    lo,
                    hi,
                    key@,
                    value@,
                ) && final(self).linked_with_split(sibling, *old(self), next),
                Err(e) => e == StoreError::NoSpace && !old(leaf_manager)@.room(18),
            },
        decreases *old(self),
    {
        let ghost a = leaf_manager@;
        match self {
            TreeNode::Leaf(leaf) => {
                let ghost before = *leaf;
                proof {
                    assert(before.owns(before.id() as int));
                    assert(before.owns(before.page_id() as int));
                }
                match leaf.insert(leaf_manager, key, value) {
                    Ok(None) => {
                        proof {
                            lemma_leaf_updated(before, a, *leaf, leaf_manager@, lo, hi, key@, value@);
                            lemma_leaf_linked(before, a, *leaf, leaf_manager@, key@, value@, next);
                        }
                        Ok(None)
                    },
                    Ok(Some((up, sibling))) => {
                        proof {
                            lemma_leaf_updated_with_split(
                                before,
                                a,
                                *leaf,
                                sibling,
                                up@,
                                leaf_manager@,
                                lo,
                                hi,
                                key@,
                                value@,
                            );
                            lemma_leaf_linked_with_split(
                                before,
                                a,
                                *leaf,
                                sibling,
                                up@,
                                leaf_manager@,
                                key@,
                                value@,
                                next,
                            );
                        }
                        Ok(Some((up, TreeNode::Leaf(sibling))))
                    },
                    Err(e) => Err(e),
                }
            },
            TreeNode::Inner(inner) => {
                let ghost before = *inner;
                let ghost keys = inner.keys();
                let ghost children = inner.children();
                let index: usize = inner.get_child_index(key);
                let ghost child_lo = inner.lower(index as int, lo);
                let ghost child_hi = inner.upper(index as int, hi);
                let ghost child_next = seq_next(children, index as int, next);
                proof {
                    lemma_child_index(keys, key@);
                    if index > 0 {
                        lemma_key_lt_total(key@, keys[index - 1]);
                    }
                    assert(children[index as int].wf(a, child_lo, child_hi));
                    lemma_inner_linked(before, next);
                    assert(children[index as int].chained(child_next));
                }
                let result = inner.children[index].insert(
                    leaf_manager,
                    key,
                    value,
                    Ghost(child_lo),
                    Ghost(child_hi),
                    Ghost(child_next),
                );
                let ghost b = leaf_manager@;
                proof {
                    assert(inner.children() == children.update(
                        index as int,
                        inner.children()[index as int],
                    ));
                    assert forall|p: int|
                        a.is_mapped(p) && !TreeNode::Inner(before).owned(p)
                            implies #[trigger] a.same_page(b, p) by {
                        assert(!children[index as int].owned(p));
                    }
                    assert(insert_ctx(before, a, b, index as int, lo, hi, next, key@));
                }
                match result {
                    Err(e) => Err(e),
                    Ok(None) => {
                        proof {
                            lemma_insert_none(
                                before,
                                a,
                                *inner,
                                b,
                                index as int,
                                lo,
                                hi,
                                next,
                                key@,
                                value@,
                            );
                            lemma_others_kept(before, a, b, index as int, lo, hi, next, key@);
                            lemma_reshaped_inner(
                                before,
                                a,
                                *inner,
                                b,
                                None,
                                index as int,
                                inner.children()[index as int],
                                None,
                                key@,
                                value@,
                            );
                        }
                        Ok(None)
                    },
                    Ok(Some((up, sibling))) => {
                        let ghost child = inner.children()[index as int];
                        let ghost keys2 = keys.insert(index as int, up@);
                        let ghost child_sibling = sibling;
                        let ghost children2 = children.update(index as int, child).insert(
                            index + 1,
                            sibling,
                        );
                        proof {
                            lemma_insert_split(
                                before,
                                a,
                                child,
                                sibling,
                                up@,
                                b,
                                index as int,
                                lo,
                                hi,
                                next,
                                key@,
                                value@,
                            );
                        }
                        match inner.insert(&up, sibling) {
                            None => {
                                proof {
                                    lemma_insert_fit(
                                        before,
                                        a,
                                        *inner,
                                        b,
                                        lo,
                                        hi,
                                        next,
                                        key@,
                                        value@,
                                    );
                                    lemma_others_kept(
                                        before,
                                        a,
                                        b,
                                        index as int,
                                        lo,
                                        hi,
                                        next,
                                        key@,
                                    );
                                    lemma_reshaped_inner(
                                        before,
                                        a,
                                        *inner,
                                        b,
                                        None,
                                        index as int,
                                        child,
                                        Some((up@, child_sibling)),
                                        key@,
                                        value@,
                                    );
                                }
                                Ok(None)
                            },
                            Some((up2, right)) => {
                                proof {
                                    lemma_insert_over(
                                        before,
                                        a,
                                        *inner,
                                        right,
                                        up2@,
                                        b,
                                        lo,
                                        hi,
                                        next,
                                        key@,
                                        value@,
                                        keys2,
                                        children2,
                                    );
                                    lemma_others_kept(
                                        before,
                                        a,
                                        b,
                                        index as int,
                                        lo,
                                        hi,
                                        next,
                                        key@,
                                    );
                                    lemma_reshaped_inner(
                                        before,
                                        a,
                                        *inner,
                                        b,
                                        Some((up2@, right)),
                                        index as int,
                                        child,
                                        Some((up@, child_sibling)),
                                        key@,
                                        value@,
                                    );
                                }
                                Ok(Some((up2, TreeNode::Inner(right))))
                            },
                        }
                    },
                }
            },
        }
    }
}


impl TreeNode {
    /// The two nodes differ in their root flag at most.
    pub open spec fn same_but_flag(self, other: TreeNode) -> bool {
        match (self, other) {
            (TreeNode::Leaf(a), TreeNode::Leaf(b)) => {
                &&& a.header() == b.header()
                &&& a.id() == b.id()
                &&& a.page_id() == b.page_id()
            },
            (TreeNode::Inner(a), TreeNode::Inner(b)) => {
                &&& a.keys() == b.keys()
                &&& a.children() == b.children()
            },
            _ => false,
        }
    }

    pub fn set_root(&mut self, is_root: bool)
        ensures
            final(self).root_flag() == is_root,
            final(self).same_but_flag(*old(self)),
    {
        match self {
            TreeNode::Leaf(leaf) => leaf.set_root(is_root),
            TreeNode::Inner(inner) => inner.set_root(is_root),
        }
    }
}

/// The root flag has no part in what a subtree stores.
pub proof fn lemma_same_but_flag(
    a: TreeNode,
    b: TreeNode,
    m: LeafManagerView,
    lo: Option<Seq<u8>>,
    hi: Option<Seq<u8>>,
)
    requires
        a.wf(m, lo, hi),
        b.same_but_flag(a),
    ensures
        b.wf(m, lo, hi),
        forall|key: Seq<u8>| b.lookup(m, key) == a.lookup(m, key),
        forall|p: int| b.owned(p) == a.owned(p),
        b.first_id() == a.first_id(),
        forall|next: Option<usize>| a.chained(next) ==> b.chained(next),
{
    match (a, b) {
        (TreeNode::Leaf(x), TreeNode::Leaf(y)) => {
            lemma_leaf_same(x, y, m);
        },
        (TreeNode::Inner(x), TreeNode::Inner(y)) => {
            assert forall|i: int| 0 <= i < y.children().len() implies (
            #[trigger] y.children()[i]).wf(m, y.lower(i, lo), y.upper(i, hi)) by {
                assert(x.children()[i].wf(m, x.lower(i, lo), x.upper(i, hi)));
            }
        },
        _ => {},
    }
}

/// A new root over a root that split.
pub proof fn lemma_new_root(
    root: Inner,
    left: TreeNode,
    right: TreeNode,
    up: Seq<u8>,
    m: LeafManagerView,
    before: TreeNode,
    a: LeafManagerView,
    key: Seq<u8>,
    value: Seq<u8>,
)
    requires
        root.keys() == seq![up],
        root.children() == seq![left, right],
        left.wf(m, None, Some(up)),
        right.wf(m, Some(up), None),
        forall|p: int| !(left.owned(p) && right.owned(p)),
        forall|k: Seq<u8>|
            (if k == key {
                Some(value)
            } else {
                before.lookup(a, k)
            }) == (if key_lt(k, up) {
                left.lookup(m, k)
            } else {
                right.lookup(m, k)
            }),
    ensures
        TreeNode::Inner(root).wf(m, None, None),
        TreeNode::Inner(root).first_id() == left.first_id(),
        left.chained(Some(right.first_id())) && right.chained(None) ==> TreeNode::Inner(
            root,
        ).chained(None),
        forall|k: Seq<u8>|
            TreeNode::Inner(root).lookup(m, k) == (if k == key {
                Some(value)
            } else {
                before.lookup(a, k)
            }),
{
    let node = TreeNode::Inner(root);
    if left.chained(Some(right.first_id())) && right.chained(None) {
        assert forall|i: int| 0 <= i < root.children().len() implies (
        #[trigger] root.children()[i]).chained(seq_next(root.children(), i, None)) by {
            if i == 0 {
                assert(root.children()[1] == right);
            }
        }
    }
    let keys = root.keys();
    assert forall|i: int| 0 <= i < root.children().len() implies (#[trigger] root.children()[i]).wf(
        m,
        root.lower(i, None),
        root.upper(i, None),
    ) by {
        if i == 0 {
            assert(root.children()[0] == left);
        } else {
            assert(root.children()[1] == right);
        }
    }
    assert forall|i: int, j: int, p: int|
        0 <= i < root.children().len() && 0 <= j < root.children().len() && i != j implies !(
    #[trigger] root.children()[i].owned(p) && #[trigger] root.children()[j].owned(p)) by {
        assert(!(left.owned(p) && right.owned(p)));
    }
    assert forall|k: Seq<u8>|
        node.lookup(m, k) == (if k == key {
            Some(value)
        } else {
            before.lookup(a, k)
        }) by {
        if key_lt(k, up) {
            lemma_child_index_is(keys, k, 0);
        } else {
            lemma_child_index_is(keys, k, 1);
        }
    }
}


/// The leaf file under a sound subtree is sound.
pub proof fn lemma_node_manager_wf(
    node: TreeNode,
    m: LeafManagerView,
    lo: Option<Seq<u8>>,
    hi: Option<Seq<u8>>,
)
    requires
        node.wf(m, lo, hi),
    ensures
        m.wf(),
    decreases node,
{
    match node {
        TreeNode::Leaf(leaf) => {},
        TreeNode::Inner(inner) => {
            lemma_node_manager_wf(inner.children()[0], m, inner.lower(0, lo), inner.upper(0, hi));
        },
    }
}


impl TreeNode {
    /// The leaves of this subtree from left to right.
    pub open spec fn leaves(self) -> Seq<Leaf>
        decreases self, 0int,
    {
        match self {
            TreeNode::Leaf(leaf) => seq![leaf],
            TreeNode::Inner(inner) => inner.leaves_upto(inner.children().len() as int),
        }
    }
}

impl Inner {
    /// The leaves of the first `n` children from left to right.
    pub open spec fn leaves_upto(self, n: int) -> Seq<Leaf>
        decreases self, n,
    {
        if n <= 0 || n > self.children().len() {
            Seq::empty()
        } else {
            self.leaves_upto(n - 1) + self.children()[n - 1].leaves()
        }
    }
}

/// The primary pages of leaves.
pub open spec fn leaf_ids(leaves: Seq<Leaf>) -> Seq<usize> {
    Seq::new(leaves.len(), |i: int| leaves[i].id())
}

/// A chain of leaves with what follows it, if anything follows.
pub open spec fn chain_then(ids: Seq<usize>, rest: Option<Seq<usize>>) -> Option<Seq<usize>> {
    match rest {
        Some(rest) => Some(ids + rest),
        None => None,
    }
}

/// What follows a subtree in the sibling chain, as far as `fuel` steps
/// lead.
pub open spec fn chain_rest(m: LeafManagerView, next: Option<usize>, fuel: nat) -> Option<
    Seq<usize>,
> {
    match next {
        None => Some(Seq::empty()),
        Some(id) => m.leaf_chain(id as int, fuel),
    }
}

/// The leaves of the first children are the first of the leaves of more
/// children.
pub proof fn lemma_leaves_upto(inner: Inner, n: int, k: int)
    requires
        0 <= k <= n <= inner.children().len(),
    ensures
        inner.leaves_upto(k).len() <= inner.leaves_upto(n).len(),
        inner.leaves_upto(n).subrange(0, inner.leaves_upto(k).len() as int) == inner.leaves_upto(k),
    decreases n - k,
{
    if k == n {
        assert(inner.leaves_upto(n).subrange(0, inner.leaves_upto(n).len() as int)
            =~= inner.leaves_upto(n));
    } else {
        lemma_leaves_upto(inner, n - 1, k);
        let shorter = inner.leaves_upto(n - 1);
        assert(inner.leaves_upto(n).subrange(0, inner.leaves_upto(k).len() as int)
            =~= shorter.subrange(0, inner.leaves_upto(k).len() as int));
    }
}

/// Every leaf of a sound subtree is sound, within the bounds of the
/// subtree, and on a page of the subtree.
pub proof fn lemma_leaves_sound(
    node: TreeNode,
    m: LeafManagerView,
    lo: Option<Seq<u8>>,
    hi: Option<Seq<u8>>,
    i: int,
)
    requires
        node.wf(m, lo, hi),
        0 <= i < node.leaves().len(),
    ensures
        node.leaves()[i].wf(m),
        node.owned(node.leaves()[i].id() as int),
        forall|key: Seq<u8>| node.leaves()[i].lookup(m, key) is Some ==> in_range(key, lo, hi),
        forall|key: Seq<u8>|
            node.leaves()[i].lookup(m, key) is Some ==> node.lookup(m, key) == node.leaves()[i].lookup(
                m,
                key,
            ),
    decreases node, 0int,
{
    match node {
        TreeNode::Leaf(leaf) => {
            assert(leaf.owns(leaf.id() as int));
        },
        TreeNode::Inner(inner) => {
            lemma_leaves_upto_sound(inner, m, lo, hi, inner.children().len() as int, i);
        },
    }
}

/// The same for the leaves of the first `n` children of an inner node.
#[verifier::rlimit(50)]
pub proof fn lemma_leaves_upto_sound(
    inner: Inner,
    m: LeafManagerView,
    lo: Option<Seq<u8>>,
    hi: Option<Seq<u8>>,
    n: int,
    i: int,
)
    requires
        TreeNode::Inner(inner).wf(m, lo, hi),
        0 <= n <= inner.children().len(),
        0 <= i < inner.leaves_upto(n).len(),
    ensures
        inner.leaves_upto(n)[i].wf(m),
        TreeNode::Inner(inner).owned(inner.leaves_upto(n)[i].id() as int),
        exists|c: int|
            0 <= c < n && (#[trigger] inner.children()[c]).owned(inner.leaves_upto(n)[i].id() as int),
        forall|key: Seq<u8>| inner.leaves_upto(n)[i].lookup(m, key) is Some ==> in_range(key, lo, hi),
        forall|key: Seq<u8>|
            inner.leaves_upto(n)[i].lookup(m, key) is Some ==> TreeNode::Inner(inner).lookup(m, key)
                == inner.leaves_upto(n)[i].lookup(m, key),
    decreases inner, n,
{
    let before = inner.leaves_upto(n - 1);
    let node = TreeNode::Inner(inner);
    if i < before.len() {
        lemma_leaves_upto_sound(inner, m, lo, hi, n - 1, i);
        let c = choose|c: int|
            0 <= c < n - 1 && (#[trigger] inner.children()[c]).owned(before[i].id() as int);
        assert(0 <= c < n && inner.children()[c].owned(inner.leaves_upto(n)[i].id() as int));
    } else {
        let child = inner.children()[n - 1];
        let j = i - before.len();
        let leaf = child.leaves()[j];
        assert(inner.leaves_upto(n)[i] == leaf);
        let clo = inner.lower(n - 1, lo);
        let chi = inner.upper(n - 1, hi);
        lemma_leaves_sound(child, m, clo, chi, j);
        assert(inner.children()[n - 1].owned(leaf.id() as int));
        assert forall|key: Seq<u8>| leaf.lookup(m, key) is Some implies in_range(key, lo, hi)
            && node.lookup(m, key) == leaf.lookup(m, key) by {
            assert(in_range(key, clo, chi));
            assert(child.lookup(m, key) == leaf.lookup(m, key));
            lemma_range_within(inner.keys(), n - 1, lo, hi, key);
            lemma_key_lt_total(key, key);
            // the key is routed to this child
            let keys = inner.keys();
            assert forall|t: int| 0 <= t < n - 1 implies !key_lt(key, #[trigger] keys[t]) by {
                if t < n - 2 {
                    assert(key_lt(keys[t], keys[n - 2]));
                    lemma_key_le_transitive(keys[t], keys[n - 2], key);
                    lemma_key_lt_total(key, keys[t]);
                } else {
                    lemma_key_lt_total(key, keys[t]);
                }
            }
            lemma_child_index_is(keys, key, n - 1);
        }
    }
}

/// A key within the bounds of a child lies within the bounds of the node.
pub proof fn lemma_range_within(
    keys: Seq<Seq<u8>>,
    c: int,
    lo: Option<Seq<u8>>,
    hi: Option<Seq<u8>>,
    key: Seq<u8>,
)
    requires
        strictly_sorted(keys),
        0 <= c <= keys.len(),
        keys.len() >= 1,
        lo matches Some(l) ==> key_lt(l, keys[0]),
        hi matches Some(h) ==> key_lt(keys[keys.len() - 1], h),
        in_range(key, seq_lower(keys, c, lo), seq_upper(keys, c, hi)),
    ensures
        in_range(key, lo, hi),
{
    let n = keys.len() as int;
    if lo is Some && c > 0 {
        if c - 1 > 0 {
            assert(key_lt(keys[0], keys[c - 1]));
            lemma_key_lt_transitive(lo->0, keys[0], keys[c - 1]);
        }
        lemma_key_le_transitive(lo->0, keys[c - 1], key);
    }
    if hi is Some && c < n {
        if c < n - 1 {
            assert(key_lt(keys[c], keys[n - 1]));
            lemma_key_lt_transitive(keys[c], keys[n - 1], hi->0);
        }
        lemma_key_lt_transitive(key, keys[c], hi->0);
    }
}


/// The child that holds leaf `i` of the first `n` children, and the place
/// of the leaf among the leaves of that child.
pub proof fn lemma_leaf_child(inner: Inner, n: int, i: int) -> (at: (int, int))
    requires
        0 <= n <= inner.children().len(),
        0 <= i < inner.leaves_upto(n).len(),
    ensures
        0 <= at.0 < n,
        0 <= at.1 < inner.children()[at.0].leaves().len(),
        inner.leaves_upto(at.0).len() + at.1 == i,
        inner.leaves_upto(n)[i] == inner.children()[at.0].leaves()[at.1],
    decreases n,
{
    let before = inner.leaves_upto(n - 1);
    if i < before.len() {
        let at = lemma_leaf_child(inner, n - 1, i);
        at
    } else {
        (n - 1, i - before.len())
    }
}

/// The leaves of a sound subtree hold ascending keys: every key of a leaf
/// comes before every key of a leaf to its right.
#[verifier::rlimit(50)]
pub proof fn lemma_leaves_ordered(
    node: TreeNode,
    m: LeafManagerView,
    lo: Option<Seq<u8>>,
    hi: Option<Seq<u8>>,
    i: int,
    j: int,
    k1: Seq<u8>,
    k2: Seq<u8>,
)
    requires
        node.wf(m, lo, hi),
        0 <= i < j < node.leaves().len(),
        node.leaves()[i].lookup(m, k1) is Some,
        node.leaves()[j].lookup(m, k2) is Some,
    ensures
        key_lt(k1, k2),
    decreases node,
{
    match node {
        TreeNode::Leaf(leaf) => {},
        TreeNode::Inner(inner) => {
            let n = inner.children().len() as int;
            let (c1, j1) = lemma_leaf_child(inner, n, i);
            let (c2, j2) = lemma_leaf_child(inner, n, j);
            let keys = inner.keys();
            if c1 == c2 {
                lemma_leaves_ordered(
                    inner.children()[c1],
                    m,
                    inner.lower(c1, lo),
                    inner.upper(c1, hi),
                    j1,
                    j2,
                    k1,
                    k2,
                );
            } else {
                if c1 > c2 {
                    lemma_leaves_upto(inner, c1, c2 + 1);
                    assert(inner.leaves_upto(c2 + 1) == inner.leaves_upto(c2)
                        + inner.children()[c2].leaves());
                    assert(false);
                }
                lemma_leaves_sound(
                    inner.children()[c1],
                    m,
                    inner.lower(c1, lo),
                    inner.upper(c1, hi),
                    j1,
                );
                lemma_leaves_sound(
                    inner.children()[c2],
                    m,
                    inner.lower(c2, lo),
                    inner.upper(c2, hi),
                    j2,
                );
                assert(in_range(k1, inner.lower(c1, lo), inner.upper(c1, hi)));
                assert(in_range(k2, inner.lower(c2, lo), inner.upper(c2, hi)));
                // k1 < keys[c1] <= keys[c2 - 1] <= k2
                if c1 < c2 - 1 {
                    assert(key_lt(keys[c1], keys[c2 - 1]));
                    lemma_key_lt_transitive(k1, keys[c1], keys[c2 - 1]);
                }
                lemma_key_le_transitive(k1, keys[c2 - 1], k2);
            }
        },
    }
}

/// What a sound subtree stores for a key is what one of its leaves
/// stores for it.
#[verifier::rlimit(50)]
pub proof fn lemma_lookup_leaf(
    node: TreeNode,
    m: LeafManagerView,
    lo: Option<Seq<u8>>,
    hi: Option<Seq<u8>>,
    key: Seq<u8>,
) -> (i: int)
    requires
        node.wf(m, lo, hi),
        node.lookup(m, key) is Some,
    ensures
        0 <= i < node.leaves().len(),
        node.leaves()[i].lookup(m, key) == node.lookup(m, key),
    decreases node,
{
    match node {
        TreeNode::Leaf(leaf) => 0,
        TreeNode::Inner(inner) => {
            let n = inner.children().len() as int;
            let c = child_index(inner.keys(), key);
            lemma_child_index(inner.keys(), key);
            let j = lemma_lookup_leaf(
                inner.children()[c],
                m,
                inner.lower(c, lo),
                inner.upper(c, hi),
                key,
            );
            lemma_leaves_upto(inner, n, c + 1);
            lemma_leaves_upto(inner, c + 1, c);
            let i = inner.leaves_upto(c).len() + j;
            assert(inner.leaves_upto(c + 1)[i] == inner.children()[c].leaves()[j]);
            assert(inner.leaves_upto(n).subrange(0, inner.leaves_upto(c + 1).len() as int)[i]
                == inner.leaves_upto(n)[i]);
            i
        },
    }
}

/// No two leaves of a sound subtree have the same primary page.
pub proof fn lemma_leaf_ids_distinct(
    node: TreeNode,
    m: LeafManagerView,
    lo: Option<Seq<u8>>,
    hi: Option<Seq<u8>>,
    i: int,
    j: int,
)
    requires
        node.wf(m, lo, hi),
        0 <= i < j < node.leaves().len(),
    ensures
        node.leaves()[i].id() != node.leaves()[j].id(),
    decreases node,
{
    match node {
        TreeNode::Leaf(leaf) => {},
        TreeNode::Inner(inner) => {
            let n = inner.children().len() as int;
            let (c1, j1) = lemma_leaf_child(inner, n, i);
            let (c2, j2) = lemma_leaf_child(inner, n, j);
            if c1 == c2 {
                lemma_leaf_ids_distinct(
                    inner.children()[c1],
                    m,
                    inner.lower(c1, lo),
                    inner.upper(c1, hi),
                    j1,
                    j2,
                );
            } else {
                lemma_leaves_sound(
                    inner.children()[c1],
                    m,
                    inner.lower(c1, lo),
                    inner.upper(c1, hi),
                    j1,
                );
                lemma_leaves_sound(
                    inner.children()[c2],
                    m,
                    inner.lower(c2, lo),
                    inner.upper(c2, hi),
                    j2,
                );
                let p = node.leaves()[i].id() as int;
                assert(!(inner.children()[c1].owned(p) && inner.children()[c2].owned(p)));
            }
        },
    }
}

/// The pages of a leaf of a subtree belong to the subtree.
pub proof fn lemma_leaf_pages_owned(
    node: TreeNode,
    m: LeafManagerView,
    lo: Option<Seq<u8>>,
    hi: Option<Seq<u8>>,
    i: int,
    p: int,
)
    requires
        node.wf(m, lo, hi),
        0 <= i < node.leaves().len(),
        node.leaves()[i].owns(p),
    ensures
        node.owned(p),
    decreases node,
{
    match node {
        TreeNode::Leaf(leaf) => {},
        TreeNode::Inner(inner) => {
            let n = inner.children().len() as int;
            let (c, j) = lemma_leaf_child(inner, n, i);
            lemma_leaf_pages_owned(
                inner.children()[c],
                m,
                inner.lower(c, lo),
                inner.upper(c, hi),
                j,
                p,
            );
        },
    }
}

/// No page belongs to two leaves of a sound subtree.
pub proof fn lemma_leaves_disjoint(
    node: TreeNode,
    m: LeafManagerView,
    lo: Option<Seq<u8>>,
    hi: Option<Seq<u8>>,
    i: int,
    j: int,
    p: int,
)
    requires
        node.wf(m, lo, hi),
        0 <= i < j < node.leaves().len(),
    ensures
        !(node.leaves()[i].owns(p) && node.leaves()[j].owns(p)),
    decreases node,
{
    match node {
        TreeNode::Leaf(leaf) => {},
        TreeNode::Inner(inner) => {
            let n = inner.children().len() as int;
            let (c1, j1) = lemma_leaf_child(inner, n, i);
            let (c2, j2) = lemma_leaf_child(inner, n, j);
            if c1 == c2 {
                lemma_leaves_disjoint(
                    inner.children()[c1],
                    m,
                    inner.lower(c1, lo),
                    inner.upper(c1, hi),
                    j1,
                    j2,
                    p,
                );
            } else if node.leaves()[i].owns(p) && node.leaves()[j].owns(p) {
                lemma_leaf_pages_owned(
                    inner.children()[c1],
                    m,
                    inner.lower(c1, lo),
                    inner.upper(c1, hi),
                    j1,
                    p,
                );
                lemma_leaf_pages_owned(
                    inner.children()[c2],
                    m,
                    inner.lower(c2, lo),
                    inner.upper(c2, hi),
                    j2,
                    p,
                );
                assert(!(inner.children()[c1].owned(p) && inner.children()[c2].owned(p)));
            }
        },
    }
}

/// A sound subtree has no more leaves than the leaf file has pages.
pub proof fn lemma_leaf_count(
    node: TreeNode,
    m: LeafManagerView,
    lo: Option<Seq<u8>>,
    hi: Option<Seq<u8>>,
)
    requires
        node.wf(m, lo, hi),
    ensures
        node.leaves().len() <= m.mapped.len(),
{
    let ids = Seq::new(node.leaves().len(), |i: int| node.leaves()[i].id() as int);
    assert forall|i: int, j: int| 0 <= i < ids.len() && 0 <= j < ids.len() && i != j implies ids[i]
        != ids[j] by {
        if i < j {
            lemma_leaf_ids_distinct(node, m, lo, hi, i, j);
        } else {
            lemma_leaf_ids_distinct(node, m, lo, hi, j, i);
        }
    }
    assert(ids.no_duplicates());
    ids.unique_seq_to_set();
    let range = vstd::set_lib::set_int_range(0, m.mapped.len() as int);
    vstd::set_lib::lemma_int_range(0, m.mapped.len() as int);
    assert forall|p: int| ids.to_set().contains(p) implies range.contains(p) by {
        let i = choose|i: int| 0 <= i < ids.len() && ids[i] == p;
        lemma_leaves_sound(node, m, lo, hi, i);
        lemma_node_owned_mapped(node, m, lo, hi, p);
    }
    vstd::set_lib::lemma_len_subset(ids.to_set(), range);
}

/// Following the sibling chain from the first leaf of a sound subtree
/// yields its leaves from left to right, and then what follows the
/// subtree.
pub proof fn lemma_leaf_chain(
    node: TreeNode,
    m: LeafManagerView,
    r: LeafManagerView,
    lo: Option<Seq<u8>>,
    hi: Option<Seq<u8>>,
    next: Option<usize>,
    fuel: nat,
)
    requires
        node.wf(m, lo, hi),
        node.chained(next),
        fuel >= node.leaves().len(),
        r.data == m.data,
        forall|i: int| 0 <= i < node.leaves().len() ==> r.is_mapped(#[trigger] node.leaves()[i].id() as int),
    ensures
        r.leaf_chain(node.first_id() as int, fuel) == chain_then(
            leaf_ids(node.leaves()),
            chain_rest(r, next, (fuel - node.leaves().len()) as nat),
        ),
    decreases node, 0int,
{
    match node {
        TreeNode::Leaf(leaf) => {
            lemma_header_fields(m, leaf.id() as int, leaf.header());
            assert(node.leaves()[0] == leaf);
            assert(r.is_mapped(leaf.id() as int));
            assert(r.page_next(leaf.id() as int) == m.page_next(leaf.id() as int));
            let ids = leaf_ids(node.leaves());
            assert(ids =~= seq![leaf.id()]);
            match next {
                None => {
                    assert(ids + Seq::<usize>::empty() =~= ids);
                },
                Some(id) => {},
            }
        },
        TreeNode::Inner(inner) => {
            lemma_inner_chain(inner, m, r, lo, hi, next, fuel, inner.children().len() as int);
        },
    }
}

/// The same for the first `n` children of an inner node.
#[verifier::rlimit(50)]
pub proof fn lemma_inner_chain(
    inner: Inner,
    m: LeafManagerView,
    r: LeafManagerView,
    lo: Option<Seq<u8>>,
    hi: Option<Seq<u8>>,
    next: Option<usize>,
    fuel: nat,
    n: int,
)
    requires
        TreeNode::Inner(inner).wf(m, lo, hi),
        TreeNode::Inner(inner).chained(next),
        1 <= n <= inner.children().len(),
        fuel >= inner.leaves_upto(n).len(),
        r.data == m.data,
        forall|i: int|
            0 <= i < inner.leaves_upto(n).len() ==> r.is_mapped(
                #[trigger] inner.leaves_upto(n)[i].id() as int,
            ),
    ensures
        r.leaf_chain(inner.children()[0].first_id() as int, fuel) == chain_then(
            leaf_ids(inner.leaves_upto(n)),
            chain_rest(
                r,
                seq_next(inner.children(), n - 1, next),
                (fuel - inner.leaves_upto(n).len()) as nat,
            ),
        ),
    decreases inner, n,
{
    let children = inner.children();
    let child = children[n - 1];
    let clo = inner.lower(n - 1, lo);
    let chi = inner.upper(n - 1, hi);
    let cnext = seq_next(children, n - 1, next);
    assert(child.chained(cnext));
    let upto = inner.leaves_upto(n);
    let before = inner.leaves_upto(n - 1);
    assert forall|i: int| 0 <= i < child.leaves().len() implies r.is_mapped(
        #[trigger] child.leaves()[i].id() as int,
    ) by {
        assert(upto[before.len() + i] == child.leaves()[i]);
    }
    if n == 1 {
        assert(inner.leaves_upto(0) =~= Seq::<Leaf>::empty());
        assert(inner.leaves_upto(1) =~= child.leaves());
        lemma_leaf_chain(child, m, r, clo, chi, cnext, fuel);
    } else {
        assert forall|i: int| 0 <= i < before.len() implies r.is_mapped(
            #[trigger] before[i].id() as int,
        ) by {
            assert(upto[i] == before[i]);
        }
        lemma_inner_chain(inner, m, r, lo, hi, next, fuel, n - 1);
        let left = (fuel - before.len()) as nat;
        lemma_leaf_chain(child, m, r, clo, chi, cnext, left);
        assert(seq_next(children, n - 2, next) == Some(child.first_id()));
        let a = leaf_ids(before);
        let b = leaf_ids(child.leaves());
        assert(leaf_ids(inner.leaves_upto(n)) =~= a + b);
        let rest = chain_rest(r, cnext, (left - child.leaves().len()) as nat);
        match rest {
            Some(r) => {
                assert(a + (b + r) =~= (a + b) + r);
            },
            None => {},
        }
    }
}

} // verus!
