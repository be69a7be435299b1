//! Syntax trees kept in an arena: every node knows its text, its children in
//! source order, and its parent.

use vstd::prelude::*;

verus! {

/// A node as the contracts see it.
pub ghost struct NodeView {
    pub text: Seq<char>,
    pub children: Seq<usize>,
    pub parent: Option<usize>,
}

/// A tree as the contracts see it: node `i` sits at index `i`.
pub type TreeView = Seq<NodeView>;

/// Every child comes after its parent and points back to it, and every parent
/// comes before its child. The ordering is what makes every walk finite.
pub open spec fn wf_tree(t: TreeView) -> bool {
    &&& forall|i: int, k: int|
        0 <= i < t.len() && 0 <= k < t[i].children.len() ==> i < #[trigger] t[i].children[k] < t.len()
            && t[t[i].children[k] as int].parent == Some(i as usize)
    &&& forall|i: int| 0 <= i < t.len() && #[trigger] t[i].parent is Some ==> t[i].parent->0 < i
}

/// `t` with a new last node of text `text` under `parent`.
pub open spec fn with_child(t: TreeView, parent: usize, text: Seq<char>) -> TreeView {
    t.update(
        parent as int,
        NodeView { children: t[parent as int].children.push(t.len() as usize), ..t[parent as int] },
    ).push(NodeView { text, children: Seq::empty(), parent: Some(parent) })
}

pub proof fn lemma_with_child_wf(t: TreeView, parent: usize, text: Seq<char>)
    requires
        wf_tree(t),
        parent < t.len(),
        t.len() < usize::MAX,
    ensures
        wf_tree(with_child(t, parent, text)),
        with_child(t, parent, text).len() == t.len() + 1,
{
    let t2 = with_child(t, parent, text);
    assert forall|i: int, k: int| 0 <= i < t2.len() && 0 <= k < t2[i].children.len() implies i
        < #[trigger] t2[i].children[k] < t2.len() && t2[t2[i].children[k] as int].parent == Some(
        i as usize,
    ) by {
        if i == parent && k == t[i].children.len() {
        } else {
            assert(t2[i].children[k] == t[i].children[k]);
        }
    }
    assert forall|i: int| 0 <= i < t2.len() && #[trigger] t2[i].parent is Some implies t2[i].parent->0
        < i by {
        if i < t.len() {
            assert(t2[i].parent == t[i].parent);
        }
    }
}

/// One node in storage.
struct NodeData {
    text: Vec<char>,
    children: Vec<usize>,
    parent: Option<usize>,
}

impl View for NodeData {
    type V = NodeView;

    closed spec fn view(&self) -> NodeView {
        NodeView { text: self.text@, children: self.children@, parent: self.parent }
    }
}

/// A whole syntax tree; node 0 is its root.
pub struct Root {
    nodes: Vec<NodeData>,
}

impl View for Root {
    type V = TreeView;

    closed spec fn view(&self) -> TreeView {
        self.nodes@.map_values(|d: NodeData| d@)
    }
}

impl Root {
    /// The tree is well formed and has a root.
    pub open spec fn wf(&self) -> bool {
        wf_tree(self@) && self@.len() > 0
    }

    /// A tree holding only a root node of text `text`.
    pub fn single(text: Vec<char>) -> (r: Root)
        ensures
            r@ == seq![NodeView { text: text@, children: Seq::empty(), parent: None }],
            r.wf(),
    {
        let mut nodes: Vec<NodeData> = Vec::new();
        nodes.push(NodeData { text, children: Vec::new(), parent: None });
        let r = Root { nodes };
        assert(r@ =~= seq![NodeView { text: text@, children: Seq::empty(), parent: None }]);
        r
    }

    pub fn len(&self) -> (r: usize)
        ensures
            r == self@.len(),
    {
        self.nodes.len()
    }

    /// Adds a node of text `text` under `parent` and returns its index.
    pub fn add_child(&mut self, parent: usize, text: Vec<char>) -> (r: usize)
        requires
            parent < old(self)@.len(),
        ensures
            r == old(self)@.len(),
            final(self)@ == with_child(old(self)@, parent, text@),
            old(self)@.len() < usize::MAX,
            wf_tree(old(self)@) ==> wf_tree(final(self)@),
    {
        let id = self.nodes.len();
        let ghost t = self@;
        self.nodes.push(NodeData { text, children: Vec::new(), parent: Some(parent) });
        let _ = self.nodes.len();
        self.nodes[parent].children.push(id);
        assert(self@ =~= with_child(t, parent, text@));
        proof {
            if wf_tree(t) {
                lemma_with_child_wf(t, parent, text@);
            }
        }
        id
    }

    pub fn text_of(&self, id: usize) -> (r: &Vec<char>)
        requires
            id < self@.len(),
        ensures
            r@ == self@[id as int].text,
    {
        &self.nodes[id].text
    }

    pub fn children_of(&self, id: usize) -> (r: &Vec<usize>)
        requires
            id < self@.len(),
        ensures
            r@ == self@[id as int].children,
    {
        &self.nodes[id].children
    }

    pub fn parent_of(&self, id: usize) -> (r: Option<usize>)
        requires
            id < self@.len(),
        ensures
            r == self@[id as int].parent,
    {
        self.nodes[id].parent
    }

    /// A handle on the root node.
    pub fn root(&self) -> (r: Node<'_>)
        requires
            self.wf(),
        ensures
            r.tree() == self@,
            r.id() == 0,
            r.wf(),
    {
        Node { root: self, id: 0 }
    }
}

/// A handle on one node of a tree that outlives it.
#[derive(Clone, Copy)]
pub struct Node<'t> {
    root: &'t Root,
    id: usize,
}

impl<'t> Node<'t> {
    pub closed spec fn tree(&self) -> TreeView {
        self.root@
    }

    pub closed spec fn id(&self) -> usize {
        self.id
    }

    pub open spec fn wf(&self) -> bool {
        wf_tree(self.tree()) && self.id() < self.tree().len()
    }

    pub fn index(&self) -> (r: usize)
        ensures
            r == self.id(),
    {
        self.id
    }

    /// The tree this node belongs to.
    pub fn get_root(&self) -> (r: &'t Root)
        ensures
            r@ == self.tree(),
    {
        self.root
    }

    pub fn text(&self) -> (r: &'t Vec<char>)
        requires
            self.wf(),
        ensures
            r@ == self.tree()[self.id() as int].text,
    {
        self.root.text_of(self.id)
    }

    /// The direct children, in source order.
    pub fn children(&self) -> (r: Vec<Node<'t>>)
        requires
            self.wf(),
        ensures
            r@.len() == self.tree()[self.id() as int].children.len(),
            forall|k: int|
                0 <= k < r@.len() ==> (#[trigger] r@[k]).tree() == self.tree() && r@[k].id()
                    == self.tree()[self.id() as int].children[k] && r@[k].wf() && r@[k].id()
                    > self.id(),
    {
        let kids = self.root.children_of(self.id);
        let mut r: Vec<Node<'t>> = Vec::new();
        let mut k: usize = 0;
        while k < kids.len()
            invariant
                self.wf(),
                kids@ == self.tree()[self.id() as int].children,
                k <= kids@.len(),
                r@.len() == k,
                forall|j: int|
                    0 <= j < k ==> (#[trigger] r@[j]).tree() == self.tree() && r@[j].id()
                        == kids@[j] && r@[j].wf() && r@[j].id() > self.id(),
            decreases kids@.len() - k,
        {
            r.push(Node { root: self.root, id: kids[k] });
            k = k + 1;
        }
        r
    }

    /// The parent, none for the root.
    pub fn parent(&self) -> (r: Option<Node<'t>>)
        requires
            self.wf(),
        ensures
            match self.tree()[self.id() as int].parent {
                None => r is None,
                Some(p) => r matches Some(n) && n.tree() == self.tree() && n.id() == p && n.wf()
                    && p < self.id(),
            },
    {
        match self.root.parent_of(self.id) {
            None => None,
            Some(p) => Some(Node { root: self.root, id: p }),
        }
    }
}

} // verus!
