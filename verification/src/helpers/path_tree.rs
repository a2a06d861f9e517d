//! Rooted tree keyed by ordered string segments.
//!
//! The nodes live in one vector and name each other by index: a node knows
//! its parent, its own key and its children. The root is node 0 and stands
//! for the empty path. Nodes are created on demand and never removed, so an
//! index stays valid for the life of the tree.

use vstd::prelude::*;

verus! {

/// A path as mathematics: the segments in order, each a sequence of
/// characters.
pub open spec fn path_view(path: Seq<String>) -> Seq<Seq<char>> {
    Seq::new(path.len(), |i: int| path[i]@)
}

/// What a node holds when the tree creates it on the way to a deeper node.
pub trait Blank: Sized {
    /// Whether this is the content of a node that nothing was done to yet.
    spec fn is_blank(&self) -> bool;

    /// The content of a fresh node.
    fn blank() -> (fresh: Self)
        ensures
            fresh.is_blank(),
    ;
}

/// A list starts out empty.
impl<T> Blank for Vec<T> {
    open spec fn is_blank(&self) -> bool {
        self@.len() == 0
    }

    fn blank() -> (fresh: Self) {
        Vec::new()
    }
}

struct Node<D> {
    /// The parent's index, None for the root.
    parent: Option<usize>,
    /// The last segment of the node's path.
    key: String,
    /// The indices of the children.
    children: Vec<usize>,
    /// What the tree's user keeps here.
    data: D,
    /// The node's path.
    path: Ghost<Seq<Seq<char>>>,
}

/// In-memory rooted tree keyed by ordered string segments, with a value of
/// type `D` at every node.
pub struct PathTree<D> {
    nodes: Vec<Node<D>>,
}

proof fn lemma_push_same<A>(a: Seq<A>, x: A, b: Seq<A>, y: A)
    requires
        a.push(x) == b.push(y),
    ensures
        a == b,
        x == y,
{
    assert(a =~= a.push(x).drop_last());
    assert(b =~= b.push(y).drop_last());
    assert(x == a.push(x).last());
    assert(y == b.push(y).last());
}

impl<D> PathTree<D> {
    /// The number of nodes.
    pub closed spec fn node_count(&self) -> nat {
        self.nodes@.len()
    }

    /// Whether `id` is the index of a node.
    pub open spec fn has_node(&self, id: int) -> bool {
        0 <= id < self.node_count()
    }

    /// The path of node `id`.
    pub closed spec fn path_of(&self, id: int) -> Seq<Seq<char>> {
        self.nodes@[id].path@
    }

    /// What node `id` holds.
    pub closed spec fn data_of(&self, id: int) -> D {
        self.nodes@[id].data
    }

    /// The parent of node `id`.
    pub closed spec fn parent_of(&self, id: int) -> Option<int> {
        match self.nodes@[id].parent {
            Some(p) => Some(p as int),
            None => None,
        }
    }

    /// The children of node `id`, in the order in which they were created.
    pub closed spec fn children_of(&self, id: int) -> Seq<usize> {
        self.nodes@[id].children@
    }

    /// Whether the tree has a node for `path`.
    pub open spec fn has_path(&self, path: Seq<Seq<char>>) -> bool {
        exists|id: int| self.has_node(id) && self.path_of(id) == path
    }

    /// The node for `path`, where the tree has one.
    pub open spec fn id_of(&self, path: Seq<Seq<char>>) -> int {
        choose|id: int| self.has_node(id) && self.path_of(id) == path
    }

    /// Two trees have the same nodes at the same places; what the nodes hold
    /// may differ.
    pub open spec fn same_shape(&self, other: &Self) -> bool {
        &&& self.node_count() == other.node_count()
        &&& forall|id: int|
            self.has_node(id) ==> {
                &&& #[trigger] self.path_of(id) == other.path_of(id)
                &&& self.parent_of(id) == other.parent_of(id)
                &&& self.children_of(id) == other.children_of(id)
            }
    }

    /// `other` has every node of this tree, at the same place and with the
    /// same content.
    pub open spec fn extended_by(&self, other: &Self) -> bool {
        &&& self.node_count() <= other.node_count()
        &&& forall|id: int|
            self.has_node(id) ==> {
                &&& #[trigger] other.path_of(id) == self.path_of(id)
                &&& other.parent_of(id) == self.parent_of(id)
                &&& other.data_of(id) == self.data_of(id)
            }
    }

    spec fn node_ok(&self, id: int) -> bool {
        let node = self.nodes@[id];
        if id == 0 {
            node.parent is None && node.path@ == Seq::<Seq<char>>::empty()
        } else {
            match node.parent {
                Some(p) => p < self.nodes@.len() && node.path@ == self.nodes@[p as int].path@.push(
                    node.key@,
                ),
                None => false,
            }
        }
    }

    spec fn same_links(&self, other: &Self) -> bool {
        &&& self.nodes@.len() == other.nodes@.len()
        &&& forall|id: int|
            0 <= id < self.nodes@.len() ==> {
                &&& (#[trigger] other.nodes@[id]).parent == self.nodes@[id].parent
                &&& other.nodes@[id].key == self.nodes@[id].key
                &&& other.nodes@[id].children == self.nodes@[id].children
                &&& other.nodes@[id].path == self.nodes@[id].path
            }
    }

    spec fn child_at(&self, p: int, x: int) -> int {
        self.nodes@[p].children@[x] as int
    }

    spec fn listed(&self, c: int) -> bool {
        let p = self.nodes@[c].parent.unwrap() as int;
        exists|x: int| 0 <= x < self.nodes@[p].children@.len() && self.child_at(p, x) == c
    }

    /// The tree is well formed: the root stands for the empty path, every
    /// other node extends its parent's path by its own key, no two nodes have
    /// the same path, and the child lists hold exactly the children.
    pub closed spec fn wf(&self) -> bool {
        &&& self.nodes@.len() >= 1
        &&& forall|id: int| 0 <= id < self.nodes@.len() ==> #[trigger] self.node_ok(id)
        &&& forall|i: int, j: int|
            0 <= i < self.nodes@.len() && 0 <= j < self.nodes@.len() && #[trigger] self.path_of(i)
                == #[trigger] self.path_of(j) ==> i == j
        &&& forall|p: int, x: int|
            0 <= p < self.nodes@.len() && 0 <= x < self.nodes@[p].children@.len() ==> {
                let c = #[trigger] self.child_at(p, x);
                0 < c < self.nodes@.len() && self.parent_of(c) == Some(p)
            }
        &&& forall|c: int| 0 < c < self.nodes@.len() ==> #[trigger] self.listed(c)
        &&& forall|p: int|
            0 <= p < self.nodes@.len() ==> (#[trigger] self.nodes@[p]).children@.no_duplicates()
    }

    /// What well-formedness means for the nodes: the root is node 0 and has
    /// the empty path; every other node has a parent, whose path is the
    /// node's own without its last segment; and a path names one node only.
    pub proof fn lemma_structure(&self)
        requires
            self.wf(),
        ensures
            self.node_count() >= 1,
            self.path_of(0) == Seq::<Seq<char>>::empty(),
            self.parent_of(0) is None,
            forall|id: int|
                0 < id < self.node_count() ==> {
                    &&& #[trigger] self.parent_of(id) matches Some(p)
                    &&& self.has_node(p)
                    &&& self.path_of(id).len() > 0
                    &&& self.path_of(p) == self.path_of(id).drop_last()
                },
            forall|i: int, j: int|
                self.has_node(i) && self.has_node(j) && #[trigger] self.path_of(i)
                    == #[trigger] self.path_of(j) ==> i == j,
            forall|id: int|
                self.has_node(id) ==> self.has_path(#[trigger] self.path_of(id)) && self.id_of(
                    self.path_of(id),
                ) == id,
    {
        assert(self.node_ok(0));
        assert forall|id: int| 0 < id < self.node_count() implies {
            &&& #[trigger] self.parent_of(id) matches Some(p)
            &&& self.has_node(p)
            &&& self.path_of(id).len() > 0
            &&& self.path_of(p) == self.path_of(id).drop_last()
        } by {
            assert(self.node_ok(id));
            let p = self.nodes@[id].parent.unwrap() as int;
            assert(self.path_of(p) =~= self.path_of(p).push(self.nodes@[id].key@).drop_last());
        }
    }

    /// The tree is closed under prefixes: with a node it holds a node for
    /// every shorter start of the node's path.
    pub proof fn lemma_prefix_closed(&self, id: int, k: int)
        requires
            self.wf(),
            self.has_node(id),
            0 <= k <= self.path_of(id).len(),
        ensures
            self.has_path(self.path_of(id).take(k)),
        decreases self.path_of(id).len(),
    {
        let path = self.path_of(id);
        if k == path.len() {
            assert(path.take(k) =~= path);
        } else {
            assert(self.node_ok(id));
            assert(id != 0);
            let p = self.nodes@[id].parent.unwrap() as int;
            assert(self.path_of(p).len() == path.len() - 1);
            self.lemma_prefix_closed(p, k);
            assert(self.path_of(p).take(k) =~= path.take(k));
        }
    }

    /// A tree that has no node for some start of a path has none for the path.
    pub proof fn lemma_missing_prefix(&self, path: Seq<Seq<char>>, k: int)
        requires
            self.wf(),
            0 <= k <= path.len(),
            !self.has_path(path.take(k)),
        ensures
            !self.has_path(path),
    {
        if self.has_path(path) {
            let id = self.id_of(path);
            self.lemma_prefix_closed(id, k);
        }
    }

    /// A child of the node for `path` is a node for `path` and one more
    /// segment, and the other way round.
    proof fn lemma_child_of(&self, p: int, key: Seq<char>, c: int)
        requires
            self.wf(),
            self.has_node(p),
            self.has_node(c),
            self.path_of(c) == self.path_of(p).push(key),
        ensures
            c != 0,
            self.nodes@[c].parent == Some(p as usize),
            self.nodes@[c].key@ == key,
            exists|x: int| 0 <= x < self.nodes@[p].children@.len() && self.child_at(p, x) == c,
    {
        assert(self.node_ok(c));
        assert(self.node_ok(0));
        assert(self.path_of(p).push(key).len() > 0);
        assert(c != 0);
        let q = self.nodes@[c].parent.unwrap() as int;
        lemma_push_same(self.path_of(q), self.nodes@[c].key@, self.path_of(p), key);
        assert(self.path_of(q) == self.path_of(p));
        assert(self.listed(c));
    }

    /// Whether a tree is well formed depends on the links between its nodes
    /// only, not on what the nodes hold.
    proof fn lemma_links_decide(&self, other: &Self)
        requires
            self.wf(),
            self.same_links(other),
        ensures
            other.wf(),
            other.same_shape(self),
    {
        assert forall|id: int| 0 <= id < other.nodes@.len() implies #[trigger] other.node_ok(
            id,
        ) by {
            assert(self.node_ok(id));
        }
        assert forall|i: int, j: int|
            0 <= i < other.nodes@.len() && 0 <= j < other.nodes@.len() && #[trigger] other.path_of(
                i,
            ) == #[trigger] other.path_of(j) implies i == j by {
            assert(self.path_of(i) == self.path_of(j));
        }
        assert forall|p: int, x: int|
            0 <= p < other.nodes@.len() && 0 <= x < other.nodes@[p].children@.len() implies {
            let c = #[trigger] other.child_at(p, x);
            0 < c < other.nodes@.len() && other.parent_of(c) == Some(p)
        } by {
            assert(self.child_at(p, x) == other.child_at(p, x));
        }
        assert forall|c: int| 0 < c < other.nodes@.len() implies #[trigger] other.listed(c) by {
            assert(self.listed(c));
            assert(self.node_ok(c));
            let p = self.nodes@[c].parent.unwrap() as int;
            assert(other.nodes@[c].parent == self.nodes@[c].parent);
            assert(other.nodes@[p].children == self.nodes@[p].children);
            let x = choose|x: int|
                0 <= x < self.nodes@[p].children@.len() && self.child_at(p, x) == c;
            assert(other.child_at(p, x) == c);
        }
        assert forall|p: int| 0 <= p < other.nodes@.len() implies (#[trigger] other.nodes@[p]).children@.no_duplicates() by {
            assert(self.nodes@[p].children@.no_duplicates());
        }
    }

    /// Creates a tree that has the root only.
    pub fn new(root: D) -> (tree: Self)
        ensures
            tree.wf(),
            tree.node_count() == 1,
            tree.data_of(0) == root,
    {
        let mut nodes: Vec<Node<D>> = Vec::new();
        nodes.push(
            Node {
                parent: None,
                key: String::new(),
                children: Vec::new(),
                data: root,
                path: Ghost(Seq::empty()),
            },
        );
        let tree = PathTree { nodes };
        proof {
            assert(tree.node_ok(0));
        }
        tree
    }

    /// The number of nodes.
    pub fn len(&self) -> (count: usize)
        ensures
            count == self.node_count(),
    {
        self.nodes.len()
    }

    /// The parent of node `id`, None for the root.
    pub fn parent(&self, id: usize) -> (parent: Option<usize>)
        requires
            self.wf(),
            self.has_node(id as int),
        ensures
            match parent {
                Some(p) => self.parent_of(id as int) == Some(p as int),
                None => self.parent_of(id as int) is None && id == 0,
            },
    {
        proof {
            assert(self.node_ok(id as int));
        }
        self.nodes[id].parent
    }

    /// What node `id` holds.
    pub fn data(&self, id: usize) -> (data: &D)
        requires
            self.has_node(id as int),
        ensures
            *data == self.data_of(id as int),
    {
        &self.nodes[id].data
    }

    /// What node `id` holds, to be changed in place. The tree keeps its
    /// shape, and every other node what it holds.
    pub fn data_mut(&mut self, id: usize) -> (data: &mut D)
        requires
            old(self).wf(),
            old(self).has_node(id as int),
        ensures
            *data == old(self).data_of(id as int),
            final(self).wf(),
            final(self).same_shape(old(self)),
            final(self).data_of(id as int) == *final(data),
            forall|other: int|
                old(self).has_node(other) && other != id ==> #[trigger] final(self).data_of(other)
                    == old(self).data_of(other),
    {
        proof {
            assert forall|other: Self| self.same_links(&other) implies #[trigger] other.wf()
                && other.same_shape(self) by {
                self.lemma_links_decide(&other);
            }
        }
        &mut self.nodes[id].data
    }

    /// The child of node `id` under `key`.
    pub fn find_child(&self, id: usize, key: &String) -> (found: Option<usize>)
        requires
            self.wf(),
            self.has_node(id as int),
        ensures
            match found {
                Some(c) => {
                    &&& self.has_node(c as int)
                    &&& self.parent_of(c as int) == Some(id as int)
                    &&& self.path_of(c as int) == self.path_of(id as int).push(key@)
                },
                None => !self.has_path(self.path_of(id as int).push(key@)),
            },
    {
        let mut x: usize = 0;
        while x < self.nodes[id].children.len()
            invariant
                self.wf(),
                self.has_node(id as int),
                x <= self.nodes@[id as int].children@.len(),
                forall|y: int| 0 <= y < x ==> self.nodes@[self.child_at(id as int, y)].key@ != key@,
            decreases self.nodes@[id as int].children@.len() - x,
        {
            let c = self.nodes[id].children[x];
            proof {
                assert(self.child_at(id as int, x as int) == c);
                assert(self.node_ok(c as int));
            }
            if self.nodes[c].key == *key {
                return Some(c);
            }
            x = x + 1;
        }
        proof {
            let wanted = self.path_of(id as int).push(key@);
            if self.has_path(wanted) {
                let c = self.id_of(wanted);
                self.lemma_child_of(id as int, key@, c);
                let list = self.nodes@[id as int].children@;
                let y = choose|y: int| 0 <= y < list.len() && self.child_at(id as int, y) == c;
                assert(self.child_at(id as int, y) == c);
            }
        }
        None
    }

    /// Gives node `id` a child under `key`, which it must not have yet.
    pub fn add_child(&mut self, id: usize, key: String, data: D) -> (child: usize)
        requires
            old(self).wf(),
            old(self).has_node(id as int),
            !old(self).has_path(old(self).path_of(id as int).push(key@)),
        ensures
            final(self).wf(),
            child == old(self).node_count(),
            final(self).node_count() == old(self).node_count() + 1,
            old(self).extended_by(final(self)),
            final(self).path_of(child as int) == old(self).path_of(id as int).push(key@),
            final(self).parent_of(child as int) == Some(id as int),
            final(self).data_of(child as int) == data,
    {
        let child = self.nodes.len();
        let ghost path = self.nodes@[id as int].path@.push(key@);
        let ghost before = *self;
        self.nodes[id].children.push(child);
        self.nodes.push(
            Node { parent: Some(id), key, children: Vec::new(), data, path: Ghost(path) },
        );
        proof {
            let n = before.nodes@.len() as int;
            assert forall|j: int| 0 <= j < self.nodes@.len() implies #[trigger] self.node_ok(j) by {
                if j < n {
                    assert(before.node_ok(j));
                }
            }
            assert forall|i: int, j: int|
                0 <= i < self.nodes@.len() && 0 <= j < self.nodes@.len() && #[trigger] self.path_of(
                    i,
                ) == #[trigger] self.path_of(j) implies i == j by {
                if i < n && j < n {
                    assert(before.path_of(i) == before.path_of(j));
                } else if i < n {
                    assert(before.has_node(i) && before.path_of(i) == path);
                } else if j < n {
                    assert(before.has_node(j) && before.path_of(j) == path);
                }
            }
            assert forall|p: int, x: int|
                0 <= p < self.nodes@.len() && 0 <= x < self.nodes@[p].children@.len() implies {
                let c = #[trigger] self.child_at(p, x);
                0 < c < self.nodes@.len() && self.parent_of(c) == Some(p)
            } by {
                if p < n {
                    if p == id && x == before.nodes@[p].children@.len() {
                    } else {
                        assert(before.child_at(p, x) == self.child_at(p, x));
                    }
                }
            }
            assert forall|c: int| 0 < c < self.nodes@.len() implies #[trigger] self.listed(c) by {
                if c < n {
                    assert(before.listed(c));
                    let p = before.nodes@[c].parent.unwrap() as int;
                    assert(before.node_ok(c));
                    let x = choose|x: int|
                        0 <= x < before.nodes@[p].children@.len() && before.child_at(p, x) == c;
                    assert(self.child_at(p, x) == c);
                } else {
                    let last = before.nodes@[id as int].children@.len() as int;
                    assert(self.child_at(id as int, last) == c);
                }
            }
            assert forall|p: int| 0 <= p < self.nodes@.len() implies (#[trigger] self.nodes@[p]).children@.no_duplicates() by {
                if p == id {
                    let old_list = before.nodes@[p].children@;
                    assert(before.nodes@[p].children@.no_duplicates());
                    assert forall|x: int| 0 <= x < old_list.len() implies old_list[x] != child by {
                        assert(before.child_at(p, x) < n);
                    }
                } else if p < n {
                    assert(before.nodes@[p].children@.no_duplicates());
                }
            }
        }
        child
    }

    /// What the node for `path` holds, where the tree has one.
    pub open spec fn data_at(&self, path: Seq<Seq<char>>) -> Option<D> {
        if self.has_path(path) {
            Some(self.data_of(self.id_of(path)))
        } else {
            None
        }
    }

    /// Where one node changed what it holds, the tree shows the change at
    /// the node's path and nowhere else.
    pub proof fn lemma_one_changed(&self, former: &Self, id: int, place: Seq<Seq<char>>)
        requires
            self.wf(),
            former.wf(),
            self.same_shape(former),
            former.has_node(id),
            forall|other: int|
                former.has_node(other) && other != id ==> #[trigger] self.data_of(other)
                    == former.data_of(other),
        ensures
            self.has_path(place) == former.has_path(place),
            place != former.path_of(id) ==> self.data_at(place) == former.data_at(place),
            place == former.path_of(id) ==> {
                &&& self.data_at(place) == Some(self.data_of(id))
                &&& former.data_at(place) == Some(former.data_of(id))
            },
    {
        self.lemma_structure();
        former.lemma_structure();
        assert(self.path_of(id) == former.path_of(id));
        if former.has_path(place) {
            let at = former.id_of(place);
            assert(self.has_node(at) && self.path_of(at) == place);
        } else {
            if self.has_path(place) {
                let at = self.id_of(place);
                assert(former.has_node(at) && former.path_of(at) == place);
            }
        }
    }

    /// The children of a node are distinct nodes below it, each with the
    /// node as its parent, and every node with that parent is among them.
    pub proof fn lemma_children(&self, id: int)
        requires
            self.wf(),
            self.has_node(id),
        ensures
            self.children_of(id).no_duplicates(),
            forall|x: int|
                0 <= x < self.children_of(id).len() ==> {
                    let child = (#[trigger] self.children_of(id)[x]) as int;
                    &&& self.has_node(child)
                    &&& self.parent_of(child) == Some(id)
                    &&& self.path_of(child).len() > 0
                    &&& self.path_of(child).drop_last() == self.path_of(id)
                },
            forall|child: int|
                self.has_node(child) && #[trigger] self.parent_of(child) == Some(id)
                    ==> exists|x: int|
                    0 <= x < self.children_of(id).len() && self.children_of(id)[x] == child,
    {
        self.lemma_structure();
        assert(self.nodes@[id].children@.no_duplicates());
        assert forall|x: int| 0 <= x < self.children_of(id).len() implies {
            let child = (#[trigger] self.children_of(id)[x]) as int;
            &&& self.has_node(child)
            &&& self.parent_of(child) == Some(id)
            &&& self.path_of(child).len() > 0
            &&& self.path_of(child).drop_last() == self.path_of(id)
        } by {
            let child = self.child_at(id, x);
            assert(child == self.children_of(id)[x]);
            assert(0 < child && self.parent_of(child) == Some(id));
        }
        assert forall|child: int|
            self.has_node(child) && #[trigger] self.parent_of(child) == Some(id) implies exists|
            x: int,
        |
            0 <= x < self.children_of(id).len() && self.children_of(id)[x] == child by {
            assert(child != 0);
            assert(self.listed(child));
            let x = choose|x: int|
                0 <= x < self.nodes@[id].children@.len() && self.child_at(id, x) == child;
            assert(self.children_of(id)[x] == child);
        }
    }

    /// The children of node `id`.
    pub fn child_ids(&self, id: usize) -> (ids: &Vec<usize>)
        requires
            self.has_node(id as int),
        ensures
            ids@ == self.children_of(id as int),
    {
        &self.nodes[id].children
    }

    /// The last segment of the path of node `id`, which is not the root.
    pub fn key(&self, id: usize) -> (key: &String)
        requires
            self.wf(),
            self.has_node(id as int),
            id > 0,
        ensures
            self.path_of(id as int).len() > 0,
            key@ == self.path_of(id as int).last(),
    {
        proof {
            assert(self.node_ok(id as int));
        }
        &self.nodes[id].key
    }

    /// Whether `node` is `ancestor` or lies below it.
    pub fn is_under(&self, node: usize, ancestor: usize) -> (under: bool)
        requires
            self.wf(),
            self.has_node(node as int),
            self.has_node(ancestor as int),
        ensures
            under == self.path_of(ancestor as int).is_prefix_of(self.path_of(node as int)),
    {
        let ghost target = self.path_of(ancestor as int);
        let ghost whole = self.path_of(node as int);
        let mut current = node;
        proof {
            self.lemma_structure();
        }
        loop
            invariant
                self.wf(),
                self.has_node(current as int),
                self.has_node(ancestor as int),
                target == self.path_of(ancestor as int),
                whole == self.path_of(node as int),
                self.path_of(current as int).is_prefix_of(whole),
                target.is_prefix_of(whole) ==> target.is_prefix_of(self.path_of(current as int)),
            decreases self.path_of(current as int).len(),
        {
            if current == ancestor {
                return true;
            }
            proof {
                self.lemma_structure();
            }
            match self.parent(current) {
                Some(parent) => {
                    proof {
                        let here = self.path_of(current as int);
                        let above = self.path_of(parent as int);
                        assert(above == here.drop_last());
                        assert(above.is_prefix_of(whole));
                        if target.is_prefix_of(whole) {
                            assert(target != here);
                            if target.len() == here.len() {
                                assert(target =~= here);
                            }
                            assert(target.is_prefix_of(above));
                        }
                    }
                    current = parent;
                },
                None => {
                    proof {
                        if target.is_prefix_of(whole) {
                            assert(target =~= Seq::<Seq<char>>::empty());
                            assert(self.path_of(ancestor as int) == self.path_of(0));
                        }
                    }
                    return false;
                },
            }
        }
    }

    /// Traverses from the root along `path` and returns the node it ends at,
    /// or None at the first missing segment.
    pub fn find(&self, path: &Vec<String>) -> (found: Option<usize>)
        requires
            self.wf(),
        ensures
            match found {
                Some(id) => self.has_node(id as int) && self.path_of(id as int) == path_view(path@),
                None => !self.has_path(path_view(path@)),
            },
    {
        let ghost wanted = path_view(path@);
        let mut current: usize = 0;
        let mut depth: usize = 0;
        proof {
            assert(self.node_ok(0));
            assert(wanted.take(0) =~= Seq::<Seq<char>>::empty());
        }
        while depth < path.len()
            invariant
                self.wf(),
                wanted == path_view(path@),
                depth <= path.len(),
                self.has_node(current as int),
                self.path_of(current as int) == wanted.take(depth as int),
            decreases path.len() - depth,
        {
            proof {
                assert(wanted.take(depth as int).push(path@[depth as int]@) =~= wanted.take(
                    depth + 1,
                ));
            }
            match self.find_child(current, &path[depth]) {
                Some(child) => {
                    current = child;
                },
                None => {
                    proof {
                        self.lemma_missing_prefix(wanted, depth + 1);
                    }
                    return None;
                },
            }
            depth = depth + 1;
        }
        proof {
            assert(wanted.take(path.len() as int) =~= wanted);
        }
        Some(current)
    }

    /// The keys of the children of node `id`. Their order is unspecified.
    pub fn child_keys(&self, id: usize) -> (keys: Vec<String>)
        requires
            self.wf(),
            self.has_node(id as int),
        ensures
            path_view(keys@).no_duplicates(),
            forall|key: Seq<char>|
                path_view(keys@).contains(key) <==> self.has_path(
                    self.path_of(id as int).push(key),
                ),
    {
        let mut keys: Vec<String> = Vec::new();
        let mut x: usize = 0;
        let ghost here = self.path_of(id as int);
        while x < self.nodes[id].children.len()
            invariant
                self.wf(),
                self.has_node(id as int),
                here == self.path_of(id as int),
                x <= self.nodes@[id as int].children@.len(),
                keys@.len() == x,
                forall|y: int|
                    0 <= y < x ==> (#[trigger] keys@[y])@ == self.nodes@[self.child_at(
                        id as int,
                        y,
                    )].key@,
            decreases self.nodes@[id as int].children@.len() - x,
        {
            let c = self.nodes[id].children[x];
            proof {
                assert(self.child_at(id as int, x as int) == c);
            }
            keys.push(self.nodes[c].key.clone());
            x = x + 1;
        }
        proof {
            let list = self.nodes@[id as int].children@;
            let views = path_view(keys@);
            assert forall|y: int| 0 <= y < list.len() implies self.path_of(
                #[trigger] self.child_at(id as int, y),
            ) == here.push(views[y]) by {
                assert(self.node_ok(self.child_at(id as int, y)));
                assert(views[y] == keys@[y]@);
            }
            assert forall|a: int, b: int|
                0 <= a < views.len() && 0 <= b < views.len() && a != b implies views[a]
                != views[b] by {
                let ca = self.child_at(id as int, a);
                let cb = self.child_at(id as int, b);
                assert(list[a] != list[b]);
                if views[a] == views[b] {
                    assert(self.path_of(ca) == self.path_of(cb));
                }
            }
            assert forall|key: Seq<char>| views.contains(key) <==> self.has_path(
                here.push(key),
            ) by {
                if views.contains(key) {
                    let y = views.index_of(key);
                    let c = self.child_at(id as int, y);
                    assert(self.has_node(c) && self.path_of(c) == here.push(key));
                }
                if self.has_path(here.push(key)) {
                    let c = self.id_of(here.push(key));
                    self.lemma_child_of(id as int, key, c);
                    let y = choose|y: int| 0 <= y < list.len() && self.child_at(id as int, y) == c;
                    assert(self.child_at(id as int, y) == c);
                    lemma_push_same(here, views[y], here, key);
                }
            }
        }
        keys
    }

    /// The keys of the children of the node for `path`; none where the tree
    /// has no such node. Their order is unspecified.
    pub fn children(&self, path: &Vec<String>) -> (keys: Vec<String>)
        requires
            self.wf(),
        ensures
            path_view(keys@).no_duplicates(),
            forall|key: Seq<char>|
                path_view(keys@).contains(key) <==> self.has_path(path_view(path@).push(key)),
    {
        match self.find(path) {
            Some(id) => self.child_keys(id),
            None => {
                let keys: Vec<String> = Vec::new();
                proof {
                    let wanted = path_view(path@);
                    assert forall|key: Seq<char>| !self.has_path(wanted.push(key)) by {
                        assert(wanted.push(key).take(wanted.len() as int) =~= wanted);
                        if self.has_path(wanted.push(key)) {
                            self.lemma_missing_prefix(wanted.push(key), wanted.len() as int);
                        }
                    }
                }
                keys
            },
        }
    }
}

impl<D: Blank> PathTree<D> {
    /// The nodes from index `from` on are blank, and each stands for a start
    /// of `path`.
    pub open spec fn blank_from(&self, from: nat, path: Seq<Seq<char>>) -> bool {
        forall|fresh: int|
            from <= fresh && fresh < self.node_count() ==> {
                &&& (#[trigger] self.data_of(fresh)).is_blank()
                &&& self.path_of(fresh).is_prefix_of(path)
            }
    }

    /// A tree that grew by blank nodes holds what it held, and at the new
    /// places only blanks.
    pub proof fn lemma_grown(&self, grown: &Self, path: Seq<Seq<char>>, place: Seq<Seq<char>>)
        requires
            self.wf(),
            grown.wf(),
            self.extended_by(grown),
            grown.blank_from(self.node_count(), path),
        ensures
            match self.data_at(place) {
                Some(held) => grown.data_at(place) == Some(held),
                None => grown.data_at(place) matches Some(held) ==> held.is_blank(),
            },
    {
        self.lemma_structure();
        grown.lemma_structure();
        if self.has_path(place) {
            let id = self.id_of(place);
            assert(grown.path_of(id) == place);
            assert(grown.has_node(id));
        } else if grown.has_path(place) {
            let id = grown.id_of(place);
            if id < self.node_count() {
                assert(self.has_node(id));
                assert(self.path_of(id) == place);
            }
            assert(grown.data_of(id).is_blank());
        }
    }

    /// Traverses from the root along `path`, creating the nodes that are
    /// missing, and returns the node for `path`. The nodes that were there
    /// stay as they are; the new ones are blank, and each stands for a start
    /// of `path`.
    pub fn ensure(&mut self, path: &Vec<String>) -> (id: usize)
        requires
            old(self).wf(),
        ensures
            final(self).wf(),
            final(self).has_node(id as int),
            final(self).path_of(id as int) == path_view(path@),
            old(self).extended_by(final(self)),
            final(self).blank_from(old(self).node_count(), path_view(path@)),
    {
        let ghost wanted = path_view(path@);
        let mut current: usize = 0;
        let mut depth: usize = 0;
        proof {
            assert(self.node_ok(0));
            assert(wanted.take(0) =~= Seq::<Seq<char>>::empty());
        }
        while depth < path.len()
            invariant
                self.wf(),
                wanted == path_view(path@),
                depth <= path.len(),
                self.has_node(current as int),
                self.path_of(current as int) == wanted.take(depth as int),
                old(self).extended_by(self),
                self.blank_from(old(self).node_count(), wanted),
            decreases path.len() - depth,
        {
            proof {
                assert(wanted.take(depth as int).push(path@[depth as int]@) =~= wanted.take(
                    depth + 1,
                ));
            }
            current =
            match self.find_child(current, &path[depth]) {
                Some(child) => child,
                None => {
                    let ghost before = *self;
                    let child = self.add_child(current, path[depth].clone(), D::blank());
                    proof {
                        assert(wanted.take(depth + 1).is_prefix_of(wanted));
                        assert forall|fresh: int|
                            old(self).node_count() <= fresh && fresh < self.node_count() implies {
                            &&& (#[trigger] self.data_of(fresh)).is_blank()
                            &&& self.path_of(fresh).is_prefix_of(wanted)
                        } by {
                            if fresh < before.node_count() {
                                assert(before.data_of(fresh).is_blank());
                                assert(self.path_of(fresh) == before.path_of(fresh));
                            }
                        }
                    }
                    child
                },
            };
            depth = depth + 1;
        }
        proof {
            assert(wanted.take(path.len() as int) =~= wanted);
        }
        current
    }
}

} // verus!
