use vstd::prelude::*;
use crate::style::{Cursor, Display, Style, compute_style, cascade, display_named, parse_display};

verus! {

/// The kinds of presentation node.
#[derive(Clone, Copy, PartialEq, Eq, Debug, Structural)]
pub enum NodeKind {
    Div,
    Button,
    Span,
    Text,
}

impl NodeKind {
    /// Whether nodes of this kind lay out their own children.
    pub open spec fn is_container_spec(self) -> bool {
        self == NodeKind::Div || self == NodeKind::Button
    }

    /// Whether nodes of this kind lay out their own children.
    pub fn is_container(self) -> (r: bool)
        ensures
            r == self.is_container_spec(),
    {
        match self {
            NodeKind::Div | NodeKind::Button => true,
            NodeKind::Span | NodeKind::Text => false,
        }
    }

    /// The display of a node of this kind that declares none.
    pub fn default_display(self) -> (r: Display)
        ensures
            r == default_display_of(self),
    {
        match self {
            NodeKind::Div => Display::Block,
            NodeKind::Button => Display::Inline,
            NodeKind::Span => Display::Inline,
            NodeKind::Text => Display::Inline,
        }
    }

    /// Whether nodes of this kind can hold the keyboard focus.
    pub fn takes_focus(self) -> (r: bool)
        ensures
            r == (self == NodeKind::Button),
    {
        match self {
            NodeKind::Button => true,
            _ => false,
        }
    }
}

/// Another name for the kinds of node.
pub type ElementKind = NodeKind;

/// The display of a node of kind `k` that declares none.
pub open spec fn default_display_of(k: NodeKind) -> Display {
    if k == NodeKind::Div {
        Display::Block
    } else {
        Display::Inline
    }
}

/// A handle to a node: its slot in the arena and the generation of the slot
/// when the node was made. A handle outlives its node and is then stale.
#[derive(Clone, Copy, PartialEq, Eq, Debug, Structural)]
pub struct Node {
    index: usize,
    gen: u32,
}

impl Node {
    pub closed spec fn idx(self) -> int {
        self.index as int
    }
}

/// What an input entry point asks the host to run: the click handler of
/// `target`.
#[derive(Clone, Copy, PartialEq, Eq, Debug, Structural)]
pub struct Event {
    pub target: Node,
}

/// The record of one node.
pub struct NodeData {
    pub kind: NodeKind,
    pub parent: Option<Node>,
    pub first_child: Option<Node>,
    pub last_child: Option<Node>,
    pub next_sibling: Option<Node>,
    pub prev_sibling: Option<Node>,
    pub hover: bool,
    pub active: bool,
    pub focus: bool,
    pub style: Style,
    pub computed_style: Style,
    pub text: String,
    pub has_on_click: bool,
}

impl NodeData {
    /// A fresh record of kind `kind`, linked to nothing.
    pub fn new(kind: NodeKind) -> (r: NodeData)
        ensures
            r.kind == kind,
            r.parent is None,
            r.first_child is None,
            r.last_child is None,
            r.next_sibling is None,
            r.prev_sibling is None,
            !r.hover,
            !r.active,
            !r.focus,
            !r.has_on_click,
            r.style@ == Map::<Seq<char>, Seq<char>>::empty(),
            r.text@ == Seq::<char>::empty(),
    {
        NodeData {
            kind,
            parent: None,
            first_child: None,
            last_child: None,
            next_sibling: None,
            prev_sibling: None,
            hover: false,
            active: false,
            focus: false,
            style: Style::new(),
            computed_style: Style::new(),
            text: String::new(),
            has_on_click: false,
        }
    }
}

struct Slot {
    data: NodeData,
    gen: u32,
    used: bool,
}

/// The arena of nodes with the tree they form, and the pointer and focus state
/// of the session.
pub struct Gui {
    nodes: Vec<Slot>,
    root: Node,
    hover: Option<Node>,
    active: Option<Node>,
    focus: Option<Node>,
    passive_focus: Option<(Node, usize)>,
    /// The children of each slot, in order.
    kids: Ghost<Map<int, Seq<Node>>>,
    /// The number of ancestors of each slot.
    depth: Ghost<Map<int, nat>>,
}

/// The last element of a non-empty sequence of nodes, or `None`.
pub open spec fn last_of(s: Seq<Node>) -> Option<Node> {
    if s.len() == 0 {
        None
    } else {
        Some(s.last())
    }
}

/// The first element of a non-empty sequence of nodes, or `None`.
pub open spec fn first_of(s: Seq<Node>) -> Option<Node> {
    if s.len() == 0 {
        None
    } else {
        Some(s[0])
    }
}

impl Gui {
    spec fn d(&self, i: int) -> NodeData {
        self.nodes@[i].data
    }

    spec fn used(&self, i: int) -> bool {
        0 <= i < self.nodes@.len() && self.nodes@[i].used
    }

    spec fn handle(&self, i: int) -> Node {
        Node { index: i as usize, gen: self.nodes@[i].gen }
    }

    /// Number of slots in the arena, free or not.
    pub closed spec fn slot_count(&self) -> nat {
        self.nodes@.len()
    }

    /// Whether `n` names a node that exists now.
    pub closed spec fn live(&self, n: Node) -> bool {
        self.used(n.idx()) && self.nodes@[n.idx()].gen == n.gen
    }

    /// The parent of a live node.
    pub closed spec fn parent_of(&self, n: Node) -> Option<Node> {
        self.d(n.idx()).parent
    }

    /// The children of a live node, in order.
    pub closed spec fn children(&self, n: Node) -> Seq<Node> {
        self.kids@[n.idx()]
    }

    /// The kind of a live node.
    pub closed spec fn kind_of(&self, n: Node) -> NodeKind {
        self.d(n.idx()).kind
    }

    /// The declared style of a live node.
    pub closed spec fn style_of(&self, n: Node) -> Map<Seq<char>, Seq<char>> {
        self.d(n.idx()).style@
    }

    /// The computed style of a live node.
    pub closed spec fn computed_style_of(&self, n: Node) -> Map<Seq<char>, Seq<char>> {
        self.d(n.idx()).computed_style@
    }

    /// The text of a live node.
    pub closed spec fn text_of(&self, n: Node) -> Seq<char> {
        self.d(n.idx()).text@
    }

    /// Whether a click handler is set on a live node.
    pub closed spec fn clickable(&self, n: Node) -> bool {
        self.d(n.idx()).has_on_click
    }

    /// The root of the tree that the session paints.
    pub closed spec fn root_node(&self) -> Node {
        self.root
    }

    /// The node under the pointer.
    pub closed spec fn hovered(&self) -> Option<Node> {
        self.hover
    }

    /// The node that a pressed button went down on.
    pub closed spec fn activated(&self) -> Option<Node> {
        self.active
    }

    /// The node that holds the keyboard focus.
    pub closed spec fn focused(&self) -> Option<Node> {
        self.focus
    }

    /// The node and text offset of the last click, focusable or not.
    pub closed spec fn passive_focused(&self) -> Option<(Node, usize)> {
        self.passive_focus
    }

    /// The flags that a live node keeps of the session's pointer and focus state.
    pub closed spec fn flags_of(&self, n: Node) -> (bool, bool, bool) {
        (self.d(n.idx()).hover, self.d(n.idx()).active, self.d(n.idx()).focus)
    }

    /// Number of ancestors of a live node.
    pub closed spec fn depth_of(&self, n: Node) -> nat {
        self.depth@[n.idx()]
    }

    /// The children list of slot `i` matches the links of its children.
    #[verifier::opaque]
    spec fn kids_ok(&self, i: int) -> bool {
        let d = self.d(i);
        let k = self.kids@[i];
        &&& k.no_duplicates()
        &&& d.first_child == first_of(k)
        &&& d.last_child == last_of(k)
        &&& forall|j: int|
            0 <= j < k.len() ==> {
                &&& self.live(k[j])
                &&& (#[trigger] self.d(k[j].idx())).parent == Some(self.handle(i))
                &&& self.d(k[j].idx()).prev_sibling == (if j == 0 {
                    None
                } else {
                    Some(k[j - 1])
                })
                &&& self.d(k[j].idx()).next_sibling == (if j + 1 == k.len() {
                    None
                } else {
                    Some(k[j + 1])
                })
            }
    }

    /// Slot `i` is among its parent's children, one level below it, or else
    /// stands alone at depth 0.
    #[verifier::opaque]
    spec fn up_ok(&self, i: int) -> bool {
        let d = self.d(i);
        match d.parent {
            Some(p) => {
                &&& self.live(p)
                &&& self.kids@[p.idx()].contains(self.handle(i))
                &&& self.depth@[i] == self.depth@[p.idx()] + 1
            },
            None => {
                &&& d.prev_sibling is None
                &&& d.next_sibling is None
                &&& self.depth@[i] == 0
            },
        }
    }

    /// The flags of slot `i` agree with the session's references.
    #[verifier::opaque]
    spec fn flags_ok(&self, i: int) -> bool {
        let d = self.d(i);
        &&& d.hover ==> self.hover == Some(self.handle(i))
        &&& d.active ==> self.active == Some(self.handle(i))
        &&& d.focus ==> self.focus == Some(self.handle(i))
    }

    spec fn links_ok(&self, i: int) -> bool {
        self.kids_ok(i) && self.up_ok(i) && self.flags_ok(i)
    }

    spec fn state_ok(&self) -> bool {
        &&& self.hover matches Some(h) ==> self.live(h)
        &&& self.active matches Some(a) ==> self.live(a)
        &&& self.focus matches Some(f) ==> self.live(f)
        &&& self.passive_focus matches Some(pf) ==> self.live(pf.0)
        &&& self.hover matches Some(h) ==> self.nodes@[h.idx()].data.hover
        &&& self.active matches Some(a) ==> self.nodes@[a.idx()].data.active
        &&& self.focus matches Some(f) ==> self.nodes@[f.idx()].data.focus
    }

    /// The arena's invariant: each live node's children list matches the links
    /// of the children, each live node with a parent is among the parent's
    /// children and lies one level below it, and the session's pointer and
    /// focus references name live nodes.
    pub closed spec fn wf(&self) -> bool {
        &&& self.nodes@.len() < usize::MAX
        &&& self.live(self.root)
        &&& self.d(self.root.idx()).parent is None
        &&& self.state_ok()
        &&& forall|i: int| #[trigger] self.used(i) ==> self.links_ok(i)
    }

    /// Whether `n` is `c` or lies below `c`: `c` is met in at most `fuel` steps
    /// up from `n`.
    spec fn reaches(&self, n: Node, c: Node, fuel: nat) -> bool
        decreases fuel,
    {
        n == c || (fuel > 0 && match self.d(n.idx()).parent {
            Some(p) => self.reaches(p, c, (fuel - 1) as nat),
            None => false,
        })
    }

    /// Whether `n` is `c` or one of its descendants.
    pub closed spec fn in_subtree(&self, n: Node, c: Node) -> bool {
        self.reaches(n, c, self.depth@[n.idx()])
    }
}


impl Gui {
    proof fn lemma_step(&self, n: Node, c: Node)
        requires
            self.wf(),
            self.live(n),
        ensures
            self.in_subtree(n, c) == (n == c || match self.parent_of(n) {
                Some(q) => self.in_subtree(q, c),
                None => false,
            }),
            self.parent_of(n) matches Some(q) ==> self.live(q) && self.depth_of(n)
                == self.depth_of(q) + 1,
            self.parent_of(n) is None ==> self.depth_of(n) == 0,
    {
        assert(self.used(n.idx()));
        reveal(Gui::up_ok);
        match self.d(n.idx()).parent {
            Some(q) => {
                assert(self.reaches(n, c, self.depth@[n.idx()]) == (n == c || self.reaches(
                    q,
                    c,
                    self.depth@[q.idx()],
                )));
            },
            None => {},
        }
    }

    proof fn lemma_depth_le(&self, n: Node, c: Node)
        requires
            self.wf(),
            self.live(n),
            self.in_subtree(n, c),
        ensures
            self.live(c),
            self.depth_of(n) >= self.depth_of(c),
        decreases self.depth_of(n),
    {
        self.lemma_step(n, c);
        if n != c {
            let q = self.parent_of(n).unwrap();
            self.lemma_depth_le(q, c);
        }
    }

    /// Two wf states that differ in the parent of `c` alone agree on the
    /// ancestors of every node outside the subtree of `c`.
    proof fn lemma_subtree_frame(s1: &Gui, s2: &Gui, c: Node, x: Node)
        requires
            s1.wf(),
            s2.wf(),
            s1.live(x),
            forall|z: Node| s1.live(z) <==> s2.live(z),
            forall|z: Node| s1.live(z) && z != c ==> s2.parent_of(z) == s1.parent_of(z),
            !s1.in_subtree(x, c),
        ensures
            forall|y: Node| s2.in_subtree(x, y) == s1.in_subtree(x, y),
            s2.depth_of(x) == s1.depth_of(x),
        decreases s1.depth_of(x),
    {
        s1.lemma_step(x, c);
        s2.lemma_step(x, c);
        match s1.parent_of(x) {
            Some(q) => {
                Gui::lemma_subtree_frame(s1, s2, c, q);
                assert forall|y: Node| s2.in_subtree(x, y) == s1.in_subtree(x, y) by {
                    s1.lemma_step(x, y);
                    s2.lemma_step(x, y);
                }
            },
            None => {
                assert forall|y: Node| s2.in_subtree(x, y) == s1.in_subtree(x, y) by {
                    s1.lemma_step(x, y);
                    s2.lemma_step(x, y);
                }
            },
        }
    }

    /// The children of a live node are live, below it, in a list without repeats.
    proof fn lemma_kids(&self, n: Node)
        requires
            self.wf(),
            self.live(n),
        ensures
            self.kids@[n.idx()].no_duplicates(),
            self.d(n.idx()).first_child == first_of(self.kids@[n.idx()]),
            self.d(n.idx()).last_child == last_of(self.kids@[n.idx()]),
            forall|j: int|
                0 <= j < self.kids@[n.idx()].len() ==> {
                    &&& self.live(self.kids@[n.idx()][j])
                    &&& (#[trigger] self.d(self.kids@[n.idx()][j].idx())).parent == Some(n)
                    &&& self.d(self.kids@[n.idx()][j].idx()).prev_sibling == (if j == 0 {
                        None
                    } else {
                        Some(self.kids@[n.idx()][j - 1])
                    })
                    &&& self.d(self.kids@[n.idx()][j].idx()).next_sibling == (if j + 1
                        == self.kids@[n.idx()].len() {
                        None
                    } else {
                        Some(self.kids@[n.idx()][j + 1])
                    })
                },
    {
        assert(self.used(n.idx()));
        reveal(Gui::kids_ok);
    }

    /// A node with a parent is among the parent's children.
    proof fn lemma_in_parent(&self, c: Node)
        requires
            self.wf(),
            self.live(c),
        ensures
            self.parent_of(c) matches Some(p) ==> self.live(p) && self.kids@[p.idx()].contains(c),
            self.parent_of(c) is None ==> self.d(c.idx()).prev_sibling is None && self.d(
                c.idx(),
            ).next_sibling is None,
    {
        assert(self.used(c.idx()));
        reveal(Gui::up_ok);
    }

    /// A child of a live node is live and has that node for parent.
    proof fn lemma_kid(&self, n: Node, j: int)
        requires
            self.wf(),
            self.live(n),
            0 <= j < self.kids@[n.idx()].len(),
        ensures
            self.live(self.kids@[n.idx()][j]),
            self.d(self.kids@[n.idx()][j].idx()).parent == Some(n),
    {
        self.lemma_kids(n);
        assert(self.d(self.kids@[n.idx()][j].idx()).parent == Some(n));
    }

    /// The node's children list and links are those of a live node.
    proof fn lemma_links(&self, n: Node)
        requires
            self.wf(),
            self.live(n),
        ensures
            self.links_ok(n.idx()),
            self.handle(n.idx()) == n,
    {
        assert(self.used(n.idx()));
    }
}


impl Gui {
    /// The two states hold the same nodes with the same contents and the same
    /// session state; only links and the ghost tree may differ.
    spec fn same_nodes(&self, o: &Gui) -> bool {
        &&& self.nodes@.len() == o.nodes@.len()
        &&& self.root == o.root
        &&& self.hover == o.hover
        &&& self.active == o.active
        &&& self.focus == o.focus
        &&& self.passive_focus == o.passive_focus
        &&& forall|i: int|
            0 <= i < self.nodes@.len() ==> {
                &&& (#[trigger] self.nodes@[i]).used == o.nodes@[i].used
                &&& self.nodes@[i].gen == o.nodes@[i].gen
                &&& self.nodes@[i].data.kind == o.nodes@[i].data.kind
                &&& self.nodes@[i].data.style == o.nodes@[i].data.style
                &&& self.nodes@[i].data.computed_style == o.nodes@[i].data.computed_style
                &&& self.nodes@[i].data.text == o.nodes@[i].data.text
                &&& self.nodes@[i].data.has_on_click == o.nodes@[i].data.has_on_click
                &&& self.nodes@[i].data.hover == o.nodes@[i].data.hover
                &&& self.nodes@[i].data.active == o.nodes@[i].data.active
                &&& self.nodes@[i].data.focus == o.nodes@[i].data.focus
            }
    }

    /// The slot `i` once `c` is linked among the children of `p` between
    /// `prev` and `next`.
    spec fn attached_slot(&self, p: Node, c: Node, prev: Option<Node>, next: Option<Node>, i: int) -> Slot {
        let s = self.nodes@[i];
        let d = s.data;
        Slot {
            data: NodeData {
                parent: if i == c.idx() {
                    Some(p)
                } else {
                    d.parent
                },
                prev_sibling: if i == c.idx() {
                    prev
                } else if next == Some(self.handle(i)) {
                    Some(c)
                } else {
                    d.prev_sibling
                },
                next_sibling: if i == c.idx() {
                    next
                } else if prev == Some(self.handle(i)) {
                    Some(c)
                } else {
                    d.next_sibling
                },
                first_child: if i == p.idx() && prev is None {
                    Some(c)
                } else {
                    d.first_child
                },
                last_child: if i == p.idx() && next is None {
                    Some(c)
                } else {
                    d.last_child
                },
                ..d
            },
            ..s
        }
    }

    /// What `attach` asks of its arguments.
    spec fn attach_pre(&self, p: Node, c: Node, prev: Option<Node>, next: Option<Node>, k: int) -> bool {
        &&& self.wf()
        &&& self.live(p)
        &&& self.live(c)
        &&& self.parent_of(c) is None
        &&& c != self.root
        &&& !self.in_subtree(p, c)
        &&& 0 <= k <= self.kids@[p.idx()].len()
        &&& prev == (if k == 0 {
            None
        } else {
            Some(self.kids@[p.idx()][k - 1])
        })
        &&& next == (if k == self.kids@[p.idx()].len() {
            None
        } else {
            Some(self.kids@[p.idx()][k])
        })
    }

    /// The depths once `c`, of depth 0, is linked below `p`.
    spec fn attached_depth(&self, p: Node, c: Node) -> Map<int, nat> {
        Map::new(
            |i: int| true,
            |i: int|
                if self.used(i) && self.in_subtree(self.handle(i), c) {
                    self.depth@[i] + self.depth@[p.idx()] + 1
                } else {
                    self.depth@[i]
                },
        )
    }

    /// Links the detached node `c` among the children of `p`, at position `k`,
    /// between `prev` and `next`.
    #[verifier::spinoff_prover]
    #[verifier::rlimit(100)]
    fn attach(&mut self, p: Node, c: Node, prev: Option<Node>, next: Option<Node>, Ghost(k): Ghost<int>)
        requires
            old(self).attach_pre(p, c, prev, next, k),
        ensures
            final(self).wf(),
            final(self).slot_count() == old(self).slot_count(),
            final(self).same_nodes(old(self)),
            final(self).kids@ == old(self).kids@.insert(
                p.idx(),
                old(self).kids@[p.idx()].insert(k, c),
            ),
            final(self).parent_of(c) == Some(p),
            forall|n: Node|
                old(self).live(n) && n.idx() != c.idx() ==> final(self).parent_of(n) == old(
                    self,
                ).parent_of(n),
    {
        let ghost s0 = *self;
        proof {
            s0.lemma_kids(p);
            s0.lemma_links(c);
            s0.lemma_step(p, c);
            let kk = s0.kids@[p.idx()];
            if let Some(pv) = prev {
                assert(kk[k - 1] == pv);
                s0.lemma_kid(p, k - 1);
                s0.lemma_step(pv, c);
            }
            if let Some(nx) = next {
                assert(kk[k] == nx);
                s0.lemma_kid(p, k);
                s0.lemma_step(nx, c);
                if let Some(pv) = prev {
                    assert(kk[k - 1] != kk[k]);
                }
            }
        }
        self.nodes[c.index].data.parent = Some(p);
        self.nodes[c.index].data.prev_sibling = prev;
        self.nodes[c.index].data.next_sibling = next;
        match prev {
            Some(pv) => {
                self.nodes[pv.index].data.next_sibling = Some(c);
            },
            None => {
                self.nodes[p.index].data.first_child = Some(c);
            },
        }
        match next {
            Some(nx) => {
                self.nodes[nx.index].data.prev_sibling = Some(c);
            },
            None => {
                self.nodes[p.index].data.last_child = Some(c);
            },
        }
        proof {
            assert(self.nodes@ =~= Seq::new(
                s0.nodes@.len(),
                |i: int| s0.attached_slot(p, c, prev, next, i),
            ));
            self.kids = Ghost(s0.kids@.insert(p.idx(), s0.kids@[p.idx()].insert(k, c)));
            self.depth = Ghost(s0.attached_depth(p, c));
            self.lemma_attach_wf(&s0, p, c, prev, next, k);
        }
    }

    proof fn lemma_attach_wf(&self, s0: &Gui, p: Node, c: Node, prev: Option<Node>, next: Option<Node>, k: int)
        requires
            s0.attach_pre(p, c, prev, next, k),
            self.nodes@ == Seq::new(
                s0.nodes@.len(),
                |i: int| s0.attached_slot(p, c, prev, next, i),
            ),
            self.root == s0.root,
            self.hover == s0.hover,
            self.active == s0.active,
            self.focus == s0.focus,
            self.passive_focus == s0.passive_focus,
            self.kids@ == s0.kids@.insert(p.idx(), s0.kids@[p.idx()].insert(k, c)),
            self.depth@ == s0.attached_depth(p, c),
        ensures
            self.wf(),
            self.same_nodes(s0),
    {
        assert forall|z: Node| self.live(z) <==> s0.live(z) by {}
        assert forall|i: int| #[trigger] self.used(i) implies self.links_ok(i) by {
            self.lemma_attach_slot(s0, p, c, prev, next, k, i);
        }
        s0.lemma_links(c);
        assert(self.live(self.root));
    }

    proof fn lemma_attach_slot(&self, s0: &Gui, p: Node, c: Node, prev: Option<Node>, next: Option<Node>, k: int, i: int)
        requires
            s0.attach_pre(p, c, prev, next, k),
            self.nodes@ == Seq::new(
                s0.nodes@.len(),
                |i: int| s0.attached_slot(p, c, prev, next, i),
            ),
            self.hover == s0.hover,
            self.active == s0.active,
            self.focus == s0.focus,
            self.kids@ == s0.kids@.insert(p.idx(), s0.kids@[p.idx()].insert(k, c)),
            self.depth@ == s0.attached_depth(p, c),
            self.used(i),
        ensures
            self.links_ok(i),
    {
        assert(s0.used(i));
        s0.lemma_kids(p);
        s0.lemma_links(c);
        assert forall|j: int| 0 <= j < s0.kids@[p.idx()].len() implies s0.kids@[p.idx()][j].idx() != c.idx() && s0.kids@[p.idx()][j].idx() != p.idx() by {
            s0.lemma_kid(p, j);
            s0.lemma_links(s0.kids@[p.idx()][j]);
            s0.lemma_step(s0.kids@[p.idx()][j], c);
        }
        if i == p.idx() {
            self.lemma_attach_kids_p(s0, p, c, prev, next, k);
        } else {
            self.lemma_attach_kids_other(s0, p, c, prev, next, k, i);
        }
        self.lemma_attach_up(s0, p, c, prev, next, k, i);
        reveal(Gui::flags_ok);
        assert(s0.flags_ok(i));
        assert(self.handle(i) == s0.handle(i));
    }

    #[verifier::rlimit(50)]
    proof fn lemma_attach_kids_p(&self, s0: &Gui, p: Node, c: Node, prev: Option<Node>, next: Option<Node>, k: int)
        requires
            s0.attach_pre(p, c, prev, next, k),
            self.nodes@ == Seq::new(
                s0.nodes@.len(),
                |i: int| s0.attached_slot(p, c, prev, next, i),
            ),
            self.kids@ == s0.kids@.insert(p.idx(), s0.kids@[p.idx()].insert(k, c)),
            s0.kids_ok(p.idx()),
            s0.live(c),
            s0.parent_of(c) is None,
            forall|j: int| 0 <= j < s0.kids@[p.idx()].len() ==> (#[trigger] s0.kids@[p.idx()][j]).idx() != c.idx() && s0.kids@[p.idx()][j].idx() != p.idx(),
        ensures
            self.kids_ok(p.idx()),
    {
        reveal(Gui::kids_ok);
        let kk = s0.kids@[p.idx()];
        let k1 = kk.insert(k, c);
        let i = p.idx();
        assert(self.handle(i) == p);
        assert(c.idx() != p.idx());
        if let Some(pv) = prev {
            assert(kk[k - 1] == pv);
        }
        if let Some(nx) = next {
            assert(kk[k] == nx);
        }
        assert(k1.no_duplicates()) by {
            assert forall|a: int, b: int| 0 <= a < b < k1.len() implies k1[a] != k1[b] by {
                if a < k && b > k {
                    assert(k1[a] == kk[a] && k1[b] == kk[b - 1]);
                } else if a < k && b < k {
                    assert(k1[a] == kk[a] && k1[b] == kk[b]);
                } else if a > k {
                    assert(k1[a] == kk[a - 1] && k1[b] == kk[b - 1]);
                } else if a == k {
                    assert(k1[b] == kk[b - 1]);
                } else {
                    assert(k1[a] == kk[a]);
                }
            }
        }
        assert forall|j: int| 0 <= j < k1.len() implies {
            &&& self.live(#[trigger] k1[j])
            &&& self.d(k1[j].idx()).parent == Some(self.handle(i))
            &&& self.d(k1[j].idx()).prev_sibling == (if j == 0 {
                None
            } else {
                Some(k1[j - 1])
            })
            &&& self.d(k1[j].idx()).next_sibling == (if j + 1 == k1.len() {
                None
            } else {
                Some(k1[j + 1])
            })
        } by {
            self.lemma_attach_kid_at(s0, p, c, prev, next, k, j);
        }
    }

    #[verifier::rlimit(50)]
    proof fn lemma_attach_kid_at(&self, s0: &Gui, p: Node, c: Node, prev: Option<Node>, next: Option<Node>, k: int, j: int)
        requires
            s0.attach_pre(p, c, prev, next, k),
            self.nodes@ == Seq::new(
                s0.nodes@.len(),
                |i: int| s0.attached_slot(p, c, prev, next, i),
            ),
            s0.kids_ok(p.idx()),
            s0.live(c),
            s0.parent_of(c) is None,
            forall|j: int| 0 <= j < s0.kids@[p.idx()].len() ==> (#[trigger] s0.kids@[p.idx()][j]).idx() != c.idx() && s0.kids@[p.idx()][j].idx() != p.idx(),
            0 <= j <= s0.kids@[p.idx()].len(),
        ensures
            ({
                let k1 = s0.kids@[p.idx()].insert(k, c);
                &&& self.live(k1[j])
                &&& self.d(k1[j].idx()).parent == Some(p)
                &&& self.d(k1[j].idx()).prev_sibling == (if j == 0 {
                    None
                } else {
                    Some(k1[j - 1])
                })
                &&& self.d(k1[j].idx()).next_sibling == (if j + 1 == k1.len() {
                    None
                } else {
                    Some(k1[j + 1])
                })
            }),
    {
        reveal(Gui::kids_ok);
        let kk = s0.kids@[p.idx()];
        let k1 = kk.insert(k, c);
        if j < k {
            assert(k1[j] == kk[j]);
            assert(s0.d(kk[j].idx()).parent == Some(p));
            if j + 1 < k {
                assert(k1[j + 1] == kk[j + 1]);
                assert(kk[j] != kk[k - 1]);
            }
            if j > 0 {
                assert(k1[j - 1] == kk[j - 1]);
            }
            if k < kk.len() {
                assert(kk[j] != kk[k]);
            }
        } else if j > k {
            assert(k1[j] == kk[j - 1]);
            assert(s0.d(kk[j - 1].idx()).parent == Some(p));
            if j > k + 1 {
                assert(k1[j - 1] == kk[j - 2]);
                assert(kk[j - 1] != kk[k]);
            }
            if j + 1 < k1.len() {
                assert(k1[j + 1] == kk[j]);
            }
            if k > 0 {
                assert(kk[j - 1] != kk[k - 1]);
            }
        } else {
            assert(k1[j] == c);
            if j > 0 {
                assert(k1[j - 1] == kk[k - 1]);
            }
            if j + 1 < k1.len() {
                assert(k1[j + 1] == kk[k]);
            }
        }
    }

    #[verifier::rlimit(50)]
    proof fn lemma_attach_kids_other(&self, s0: &Gui, p: Node, c: Node, prev: Option<Node>, next: Option<Node>, k: int, i: int)
        requires
            s0.attach_pre(p, c, prev, next, k),
            self.nodes@ == Seq::new(
                s0.nodes@.len(),
                |i: int| s0.attached_slot(p, c, prev, next, i),
            ),
            self.kids@ == s0.kids@.insert(p.idx(), s0.kids@[p.idx()].insert(k, c)),
            s0.used(i),
            i != p.idx(),
        ensures
            self.kids_ok(i),
    {
        assert(s0.links_ok(i));
        reveal(Gui::kids_ok);
        let kn = s0.kids@[i];
        assert(self.kids@[i] == kn);
        assert(self.handle(i) == s0.handle(i));
        assert forall|j: int| 0 <= j < kn.len() implies {
            &&& self.live(#[trigger] kn[j])
            &&& self.d(kn[j].idx()).parent == Some(self.handle(i))
            &&& self.d(kn[j].idx()).prev_sibling == (if j == 0 {
                None
            } else {
                Some(kn[j - 1])
            })
            &&& self.d(kn[j].idx()).next_sibling == (if j + 1 == kn.len() {
                None
            } else {
                Some(kn[j + 1])
            })
        } by {
            assert(s0.d(kn[j].idx()).parent == Some(s0.handle(i)));
            s0.lemma_links(kn[j]);
            if prev == Some(kn[j]) {
                s0.lemma_kids(p);
            }
            if next == Some(kn[j]) {
                s0.lemma_kids(p);
            }
            s0.lemma_links(c);
        }
    }

    #[verifier::rlimit(50)]
    proof fn lemma_attach_up(&self, s0: &Gui, p: Node, c: Node, prev: Option<Node>, next: Option<Node>, k: int, i: int)
        requires
            s0.attach_pre(p, c, prev, next, k),
            self.nodes@ == Seq::new(
                s0.nodes@.len(),
                |i: int| s0.attached_slot(p, c, prev, next, i),
            ),
            self.kids@ == s0.kids@.insert(p.idx(), s0.kids@[p.idx()].insert(k, c)),
            self.depth@ == s0.attached_depth(p, c),
            s0.used(i),
        ensures
            self.up_ok(i),
    {
        reveal(Gui::up_ok);
        let kk = s0.kids@[p.idx()];
        let k1 = kk.insert(k, c);
        let h = s0.handle(i);
        assert(self.handle(i) == h);
        assert(s0.links_ok(i));
        s0.lemma_step(c, c);
        s0.lemma_step(p, c);
        s0.lemma_step(h, c);
        match s0.d(i).parent {
            Some(q) => {
                if i != c.idx() {
                    s0.lemma_links(q);
                    if q.idx() == p.idx() {
                        s0.lemma_kids(p);
                        let jj = choose|jj: int| 0 <= jj < kk.len() && kk[jj] == h;
                        if jj < k {
                            assert(k1[jj] == h);
                        } else {
                            assert(k1[jj + 1] == h);
                        }
                    }
                    if s0.in_subtree(h, c) {
                        s0.lemma_depth_le(q, c);
                    }
                } else {
                    s0.lemma_links(c);
                }
            },
            None => {
                if i == c.idx() {
                    assert(k1[k] == c);
                } else {
                    s0.lemma_kids(p);
                    if let Some(pv) = prev {
                        assert(kk[k - 1] == pv);
                        s0.lemma_kid(p, k - 1);
                        s0.lemma_links(pv);
                    }
                    if let Some(nx) = next {
                        assert(kk[k] == nx);
                        s0.lemma_kid(p, k);
                        s0.lemma_links(nx);
                    }
                }
            },
        }
    }
}


impl Gui {
    /// The slot `i` once `c`, at position `k` among the children of `p`
    /// between `prev` and `next`, is unlinked.
    spec fn detached_slot(&self, p: Node, c: Node, prev: Option<Node>, next: Option<Node>, i: int) -> Slot {
        let s = self.nodes@[i];
        let d = s.data;
        Slot {
            data: NodeData {
                parent: if i == c.idx() {
                    None
                } else {
                    d.parent
                },
                prev_sibling: if i == c.idx() {
                    None
                } else if next == Some(self.handle(i)) {
                    prev
                } else {
                    d.prev_sibling
                },
                next_sibling: if i == c.idx() {
                    None
                } else if prev == Some(self.handle(i)) {
                    next
                } else {
                    d.next_sibling
                },
                first_child: if i == p.idx() && prev is None {
                    next
                } else {
                    d.first_child
                },
                last_child: if i == p.idx() && next is None {
                    prev
                } else {
                    d.last_child
                },
                ..d
            },
            ..s
        }
    }

    /// What `detach` finds: `c` at position `k` among the children of `p`.
    spec fn detach_pre(&self, p: Node, c: Node, prev: Option<Node>, next: Option<Node>, k: int) -> bool {
        &&& self.wf()
        &&& self.live(p)
        &&& self.live(c)
        &&& self.parent_of(c) == Some(p)
        &&& 0 <= k < self.kids@[p.idx()].len()
        &&& self.kids@[p.idx()][k] == c
        &&& prev == (if k == 0 {
            None
        } else {
            Some(self.kids@[p.idx()][k - 1])
        })
        &&& next == (if k + 1 == self.kids@[p.idx()].len() {
            None
        } else {
            Some(self.kids@[p.idx()][k + 1])
        })
    }

    /// The depths once the subtree of `c` stands alone.
    spec fn detached_depth(&self, c: Node) -> Map<int, nat> {
        Map::new(
            |i: int| true,
            |i: int|
                if self.used(i) && self.in_subtree(self.handle(i), c) {
                    (self.depth@[i] - self.depth@[c.idx()]) as nat
                } else {
                    self.depth@[i]
                },
        )
    }

    /// Finds where `c` stands among its parent's children.
    proof fn lemma_detach_setup(&self, c: Node) -> (k: int)
        requires
            self.wf(),
            self.live(c),
            self.parent_of(c) is Some,
        ensures
            ({
                let p = self.d(c.idx()).parent.unwrap();
                let prev = self.d(c.idx()).prev_sibling;
                let next = self.d(c.idx()).next_sibling;
                &&& self.detach_pre(p, c, prev, next, k)
                &&& c.idx() != p.idx()
                &&& 0 <= p.idx() < self.nodes@.len()
                &&& prev matches Some(pv) ==> pv.idx() != p.idx() && pv.idx() != c.idx() && self.live(pv)
                &&& next matches Some(nx) ==> nx.idx() != p.idx() && nx.idx() != c.idx() && self.live(nx)
                &&& self.live(p)
                &&& (prev is Some && next is Some) ==> prev.unwrap().idx() != next.unwrap().idx()
            }),
    {
        let p = self.d(c.idx()).parent.unwrap();
        let prev = self.d(c.idx()).prev_sibling;
        let next = self.d(c.idx()).next_sibling;
        self.lemma_in_parent(c);
        self.lemma_links(p);
        let kk = self.kids@[p.idx()];
        let k = choose|k: int| 0 <= k < kk.len() && kk[k] == c;
        self.lemma_kids(p);
        assert(self.d(kk[k].idx()).parent == Some(p));
        self.lemma_step(c, c);
        if let Some(pv) = prev {
            self.lemma_kid(p, k - 1);
            self.lemma_step(pv, c);
        }
        if let Some(nx) = next {
            self.lemma_kid(p, k + 1);
            self.lemma_step(nx, c);
            if let Some(pv) = prev {
                assert(kk[k - 1] != kk[k + 1]);
            }
        }
        k
    }

    /// Unlinks `c` from its parent; its subtree then stands alone.
    fn detach(&mut self, c: Node) -> (r: Ghost<(Node, int)>)
        requires
            old(self).wf(),
            old(self).live(c),
            old(self).parent_of(c) is Some,
        ensures
            final(self).wf(),
            final(self).slot_count() == old(self).slot_count(),
            final(self).same_nodes(old(self)),
            old(self).parent_of(c) == Some(r@.0),
            0 <= r@.1 < old(self).kids@[r@.0.idx()].len(),
            old(self).kids@[r@.0.idx()][r@.1] == c,
            final(self).kids@ == old(self).kids@.insert(
                r@.0.idx(),
                old(self).kids@[r@.0.idx()].remove(r@.1),
            ),
            final(self).parent_of(c) is None,
            forall|n: Node|
                old(self).live(n) && n.idx() != c.idx() ==> final(self).parent_of(n) == old(
                    self,
                ).parent_of(n),
    {
        let ghost k = self.lemma_detach_setup(c);
        let p = self.nodes[c.index].data.parent.unwrap();
        let prev = self.nodes[c.index].data.prev_sibling;
        let next = self.nodes[c.index].data.next_sibling;
        self.unlink(p, c, prev, next, Ghost(k));
        Ghost((p, k))
    }

    /// Unlinks `c`, at position `k` among the children of `p` between `prev`
    /// and `next`.
    #[verifier::spinoff_prover]
    #[verifier::rlimit(100)]
    fn unlink(&mut self, p: Node, c: Node, prev: Option<Node>, next: Option<Node>, Ghost(k): Ghost<int>)
        requires
            old(self).detach_pre(p, c, prev, next, k),
            c.idx() != p.idx(),
            old(self).live(p),
            prev matches Some(pv) ==> pv.idx() != p.idx() && pv.idx() != c.idx() && old(self).live(pv),
            next matches Some(nx) ==> nx.idx() != p.idx() && nx.idx() != c.idx() && old(self).live(nx),
            (prev is Some && next is Some) ==> prev.unwrap().idx() != next.unwrap().idx(),
        ensures
            final(self).wf(),
            final(self).slot_count() == old(self).slot_count(),
            final(self).same_nodes(old(self)),
            final(self).kids@ == old(self).kids@.insert(p.idx(), old(self).kids@[p.idx()].remove(k)),
            final(self).parent_of(c) is None,
            forall|n: Node|
                old(self).live(n) && n.idx() != c.idx() ==> final(self).parent_of(n) == old(
                    self,
                ).parent_of(n),
    {
        let ghost s0 = *self;
        self.nodes[c.index].data.parent = None;
        self.nodes[c.index].data.prev_sibling = None;
        self.nodes[c.index].data.next_sibling = None;
        match prev {
            Some(pv) => {
                self.nodes[pv.index].data.next_sibling = next;
            },
            None => {
                self.nodes[p.index].data.first_child = next;
            },
        }
        match next {
            Some(nx) => {
                self.nodes[nx.index].data.prev_sibling = prev;
            },
            None => {
                self.nodes[p.index].data.last_child = prev;
            },
        }
        proof {
            assert(self.nodes@ =~= Seq::new(
                s0.nodes@.len(),
                |i: int| s0.detached_slot(p, c, prev, next, i),
            ));
            self.kids = Ghost(s0.kids@.insert(p.idx(), s0.kids@[p.idx()].remove(k)));
            self.depth = Ghost(s0.detached_depth(c));
            self.lemma_detach_wf(&s0, p, c, prev, next, k);
        }
    }

    proof fn lemma_detach_wf(&self, s0: &Gui, p: Node, c: Node, prev: Option<Node>, next: Option<Node>, k: int)
        requires
            s0.detach_pre(p, c, prev, next, k),
            self.nodes@ == Seq::new(
                s0.nodes@.len(),
                |i: int| s0.detached_slot(p, c, prev, next, i),
            ),
            self.root == s0.root,
            self.hover == s0.hover,
            self.active == s0.active,
            self.focus == s0.focus,
            self.passive_focus == s0.passive_focus,
            self.kids@ == s0.kids@.insert(p.idx(), s0.kids@[p.idx()].remove(k)),
            self.depth@ == s0.detached_depth(c),
        ensures
            self.wf(),
            self.same_nodes(s0),
    {
        assert forall|z: Node| self.live(z) <==> s0.live(z) by {}
        s0.lemma_kids(p);
        assert forall|j: int| 0 <= j < s0.kids@[p.idx()].len() implies (#[trigger] s0.kids@[p.idx()][j]).idx() != p.idx() by {
            s0.lemma_kid(p, j);
            s0.lemma_step(s0.kids@[p.idx()][j], c);
        }
        assert forall|i: int| #[trigger] self.used(i) implies self.links_ok(i) by {
            assert(s0.used(i));
            if i == p.idx() {
                self.lemma_detach_kids_p(s0, p, c, prev, next, k);
            } else {
                self.lemma_detach_kids_other(s0, p, c, prev, next, k, i);
            }
            self.lemma_detach_up(s0, p, c, prev, next, k, i);
            reveal(Gui::flags_ok);
            assert(s0.flags_ok(i));
            assert(self.handle(i) == s0.handle(i));
        }
        s0.lemma_links(s0.root);
        reveal(Gui::up_ok);
        assert(self.live(self.root));
    }

    proof fn lemma_detach_kids_p(&self, s0: &Gui, p: Node, c: Node, prev: Option<Node>, next: Option<Node>, k: int)
        requires
            s0.detach_pre(p, c, prev, next, k),
            self.nodes@ == Seq::new(
                s0.nodes@.len(),
                |i: int| s0.detached_slot(p, c, prev, next, i),
            ),
            self.kids@ == s0.kids@.insert(p.idx(), s0.kids@[p.idx()].remove(k)),
            forall|j: int| 0 <= j < s0.kids@[p.idx()].len() ==> (#[trigger] s0.kids@[p.idx()][j]).idx() != p.idx(),
        ensures
            self.kids_ok(p.idx()),
    {
        s0.lemma_kids(p);
        reveal(Gui::kids_ok);
        let kk = s0.kids@[p.idx()];
        let k1 = kk.remove(k);
        let i = p.idx();
        assert(self.handle(i) == p);
        assert(k1.no_duplicates()) by {
            assert forall|a: int, b: int| 0 <= a < b < k1.len() implies k1[a] != k1[b] by {
                if a < k && b >= k {
                    assert(k1[a] == kk[a] && k1[b] == kk[b + 1]);
                } else if a < k && b < k {
                    assert(k1[a] == kk[a] && k1[b] == kk[b]);
                } else {
                    assert(k1[a] == kk[a + 1] && k1[b] == kk[b + 1]);
                }
            }
        }
        if k1.len() > 0 {
            if k == 0 {
                assert(k1[0] == kk[1]);
            } else {
                assert(k1[0] == kk[0]);
            }
            if k + 1 == kk.len() {
                assert(k1.last() == kk[k - 1]);
            } else {
                assert(k1.last() == kk.last());
            }
        }
        assert forall|j: int| 0 <= j < k1.len() implies {
            &&& self.live(#[trigger] k1[j])
            &&& self.d(k1[j].idx()).parent == Some(self.handle(i))
            &&& self.d(k1[j].idx()).prev_sibling == (if j == 0 {
                None
            } else {
                Some(k1[j - 1])
            })
            &&& self.d(k1[j].idx()).next_sibling == (if j + 1 == k1.len() {
                None
            } else {
                Some(k1[j + 1])
            })
        } by {
            self.lemma_detach_kid_at(s0, p, c, prev, next, k, j);
        }
    }

    #[verifier::rlimit(50)]
    proof fn lemma_detach_kid_at(&self, s0: &Gui, p: Node, c: Node, prev: Option<Node>, next: Option<Node>, k: int, j: int)
        requires
            s0.detach_pre(p, c, prev, next, k),
            self.nodes@ == Seq::new(
                s0.nodes@.len(),
                |i: int| s0.detached_slot(p, c, prev, next, i),
            ),
            0 <= j < s0.kids@[p.idx()].len() - 1,
        ensures
            ({
                let k1 = s0.kids@[p.idx()].remove(k);
                &&& self.live(k1[j])
                &&& self.d(k1[j].idx()).parent == Some(p)
                &&& self.d(k1[j].idx()).prev_sibling == (if j == 0 {
                    None
                } else {
                    Some(k1[j - 1])
                })
                &&& self.d(k1[j].idx()).next_sibling == (if j + 1 == k1.len() {
                    None
                } else {
                    Some(k1[j + 1])
                })
            }),
    {
        s0.lemma_kids(p);
        let kk = s0.kids@[p.idx()];
        let k1 = kk.remove(k);
        if j < k {
            assert(k1[j] == kk[j]);
            assert(s0.d(kk[j].idx()).parent == Some(p));
            assert(kk[j] != kk[k]);
            if j + 1 < k {
                assert(k1[j + 1] == kk[j + 1]);
                assert(kk[j] != kk[k - 1]);
            } else if j + 1 < k1.len() {
                assert(k1[j + 1] == kk[k + 1]);
            }
            if j > 0 {
                assert(k1[j - 1] == kk[j - 1]);
            }
            if k + 1 < kk.len() {
                assert(kk[j] != kk[k + 1]);
            }
        } else {
            assert(k1[j] == kk[j + 1]);
            assert(s0.d(kk[j + 1].idx()).parent == Some(p));
            assert(kk[j + 1] != kk[k]);
            if j > k {
                assert(k1[j - 1] == kk[j]);
                assert(kk[j + 1] != kk[k + 1]);
            } else if j > 0 {
                assert(k1[j - 1] == kk[k - 1]);
            }
            if j + 1 < k1.len() {
                assert(k1[j + 1] == kk[j + 2]);
            }
            if k > 0 {
                assert(kk[j + 1] != kk[k - 1]);
            }
        }
    }

    #[verifier::rlimit(50)]
    proof fn lemma_detach_kids_other(&self, s0: &Gui, p: Node, c: Node, prev: Option<Node>, next: Option<Node>, k: int, i: int)
        requires
            s0.detach_pre(p, c, prev, next, k),
            self.nodes@ == Seq::new(
                s0.nodes@.len(),
                |i: int| s0.detached_slot(p, c, prev, next, i),
            ),
            self.kids@ == s0.kids@.insert(p.idx(), s0.kids@[p.idx()].remove(k)),
            s0.used(i),
            i != p.idx(),
        ensures
            self.kids_ok(i),
    {
        assert(s0.links_ok(i));
        reveal(Gui::kids_ok);
        let kn = s0.kids@[i];
        assert(self.kids@[i] == kn);
        assert(self.handle(i) == s0.handle(i));
        s0.lemma_kids(p);
        if let Some(pv) = prev {
            assert(s0.d(s0.kids@[p.idx()][k - 1].idx()).parent == Some(p));
        }
        if let Some(nx) = next {
            assert(s0.d(s0.kids@[p.idx()][k + 1].idx()).parent == Some(p));
        }
        assert forall|j: int| 0 <= j < kn.len() implies {
            &&& self.live(#[trigger] kn[j])
            &&& self.d(kn[j].idx()).parent == Some(self.handle(i))
            &&& self.d(kn[j].idx()).prev_sibling == (if j == 0 {
                None
            } else {
                Some(kn[j - 1])
            })
            &&& self.d(kn[j].idx()).next_sibling == (if j + 1 == kn.len() {
                None
            } else {
                Some(kn[j + 1])
            })
        } by {
            assert(s0.d(kn[j].idx()).parent == Some(s0.handle(i)));
        }
    }

    #[verifier::rlimit(50)]
    proof fn lemma_detach_up(&self, s0: &Gui, p: Node, c: Node, prev: Option<Node>, next: Option<Node>, k: int, i: int)
        requires
            s0.detach_pre(p, c, prev, next, k),
            self.nodes@ == Seq::new(
                s0.nodes@.len(),
                |i: int| s0.detached_slot(p, c, prev, next, i),
            ),
            self.kids@ == s0.kids@.insert(p.idx(), s0.kids@[p.idx()].remove(k)),
            self.depth@ == s0.detached_depth(c),
            s0.used(i),
        ensures
            self.up_ok(i),
    {
        reveal(Gui::up_ok);
        let kk = s0.kids@[p.idx()];
        let k1 = kk.remove(k);
        let h = s0.handle(i);
        assert(self.handle(i) == h);
        assert(s0.links_ok(i));
        s0.lemma_step(c, c);
        s0.lemma_step(h, c);
        s0.lemma_kids(p);
        if let Some(pv) = prev {
            assert(s0.d(kk[k - 1].idx()).parent == Some(p));
        }
        if let Some(nx) = next {
            assert(s0.d(kk[k + 1].idx()).parent == Some(p));
        }
        match s0.d(i).parent {
            Some(q) => {
                if i != c.idx() {
                    s0.lemma_links(q);
                    if q.idx() == p.idx() {
                        let jj = choose|jj: int| 0 <= jj < kk.len() && kk[jj] == h;
                        assert(jj != k);
                        if jj < k {
                            assert(k1[jj] == h);
                        } else {
                            assert(k1[jj - 1] == h);
                        }
                    }
                    if s0.in_subtree(h, c) {
                        s0.lemma_depth_le(q, c);
                    }
                }
            },
            None => {},
        }
    }
}


impl Gui {
    /// A slot keeps its invariant when it, its children and its parent are
    /// kept as they were, and so are the session references it is named by.
    proof fn lemma_frame_slot(s1: &Gui, s0: &Gui, keep: spec_fn(int) -> bool, j: int)
        requires
            s0.wf(),
            s0.used(j),
            keep(j),
            forall|x: int|
                keep(x) && #[trigger] s0.used(x) ==> s1.used(x) && s1.nodes@[x] == s0.nodes@[x]
                    && s1.kids@[x] == s0.kids@[x] && s1.depth@[x] == s0.depth@[x],
            forall|t: int|
                0 <= t < s0.kids@[j].len() ==> keep(#[trigger] s0.kids@[j][t].idx()),
            s0.d(j).parent matches Some(q) ==> keep(q.idx()),
            s0.d(j).hover ==> s1.hover == s0.hover,
            s0.d(j).active ==> s1.active == s0.active,
            s0.d(j).focus ==> s1.focus == s0.focus,
        ensures
            s1.links_ok(j),
    {
        let kk = s0.kids@[j];
        assert(s0.links_ok(j));
        assert(s1.handle(j) == s0.handle(j));
        s0.lemma_kids(s0.handle(j));
        assert(s0.live(s0.handle(j)));
        reveal(Gui::kids_ok);
        assert forall|t: int| 0 <= t < kk.len() implies {
            &&& s1.live(kk[t])
            &&& (#[trigger] s1.d(kk[t].idx())).parent == Some(s1.handle(j))
            &&& s1.d(kk[t].idx()).prev_sibling == (if t == 0 {
                None
            } else {
                Some(kk[t - 1])
            })
            &&& s1.d(kk[t].idx()).next_sibling == (if t + 1 == kk.len() {
                None
            } else {
                Some(kk[t + 1])
            })
        } by {
            assert(s0.d(kk[t].idx()).parent == Some(s0.handle(j)));
            assert(keep(kk[t].idx()));
            assert(s0.used(kk[t].idx()));
        }
        reveal(Gui::up_ok);
        if let Some(q) = s0.d(j).parent {
            assert(s0.used(q.idx()));
        }
        reveal(Gui::flags_ok);
    }

    /// Makes a node of kind `kind`, in a free slot or a new one.
    pub fn create_node(&mut self, kind: NodeKind) -> (r: Node)
        requires
            old(self).wf(),
            old(self).slot_count() + 1 < usize::MAX,
        ensures
            final(self).wf(),
            final(self).slot_count() <= old(self).slot_count() + 1,
            !old(self).live(r),
            final(self).live(r),
            forall|n: Node| !old(self).live(n) && n != r ==> !final(self).live(n),
            final(self).kind_of(r) == kind,
            final(self).parent_of(r) is None,
            final(self).children(r) == Seq::<Node>::empty(),
            final(self).style_of(r) == Map::<Seq<char>, Seq<char>>::empty(),
            final(self).text_of(r) == Seq::<char>::empty(),
            !final(self).clickable(r),
            final(self).root_node() == old(self).root_node(),
            final(self).hovered() == old(self).hovered(),
            final(self).activated() == old(self).activated(),
            final(self).focused() == old(self).focused(),
            forall|n: Node|
                old(self).live(n) ==> {
                    &&& final(self).live(n)
                    &&& final(self).parent_of(n) == old(self).parent_of(n)
                    &&& final(self).children(n) == old(self).children(n)
                    &&& final(self).kind_of(n) == old(self).kind_of(n)
                    &&& final(self).style_of(n) == old(self).style_of(n)
                    &&& final(self).text_of(n) == old(self).text_of(n)
                    &&& final(self).clickable(n) == old(self).clickable(n)
                    &&& final(self).flags_of(n) == old(self).flags_of(n)
                },
    {
        let ghost s0 = *self;
        let mut i: usize = 0;
        let mut free: Option<usize> = None;
        while i < self.nodes.len() && free.is_none()
            invariant
                *self == s0,
                i <= self.nodes@.len(),
                free matches Some(j) ==> j < self.nodes@.len() && !self.nodes@[j as int].used
                    && self.nodes@[j as int].gen < u32::MAX,
            decreases self.nodes@.len() - i,
        {
            if !self.nodes[i].used && self.nodes[i].gen < u32::MAX {
                free = Some(i);
            }
            i = i + 1;
        }
        let node = match free {
            Some(j) => {
                let node = Node { index: j, gen: self.nodes[j].gen };
                self.nodes[j].data = NodeData::new(kind);
                self.nodes[j].used = true;
                node
            },
            None => {
                let node = Node { index: self.nodes.len(), gen: 1 };
                self.nodes.push(Slot { data: NodeData::new(kind), gen: 1, used: true });
                node
            },
        };
        proof {
            let ni = node.idx();
            self.kids = Ghost(s0.kids@.insert(ni, Seq::<Node>::empty()));
            self.depth = Ghost(s0.depth@.insert(ni, 0));
            assert(!s0.used(ni));
            assert forall|x: Node| s0.live(x) implies self.live(x) && x.idx() != ni by {}
            let keep = |x: int| x != ni;
            assert forall|j: int| #[trigger] self.used(j) implies self.links_ok(j) by {
                if j == ni {
                    reveal(Gui::kids_ok);
                    reveal(Gui::up_ok);
                    reveal(Gui::flags_ok);
                    assert(self.handle(j) == node);
                    if let Some(h) = self.hover {
                        assert(s0.live(h));
                    }
                    if let Some(a) = self.active {
                        assert(s0.live(a));
                    }
                    if let Some(f) = self.focus {
                        assert(s0.live(f));
                    }
                } else {
                    assert(s0.used(j));
                    s0.lemma_kids(s0.handle(j));
                    assert forall|t: int| 0 <= t < s0.kids@[j].len() implies keep(
                        #[trigger] s0.kids@[j][t].idx(),
                    ) by {
                        assert(s0.d(s0.kids@[j][t].idx()).parent == Some(s0.handle(j)));
                    }
                    s0.lemma_in_parent(s0.handle(j));
                    Gui::lemma_frame_slot(self, &s0, keep, j);
                }
            }
            assert forall|n: Node| old(self).live(n) implies self.children(n) == s0.children(n) by {}
            assert(s0.live(s0.root));
            assert(self.live(self.root));
            s0.lemma_links(s0.root);
            reveal(Gui::up_ok);
            assert(self.state_ok());
        }
        node
    }

    /// A session whose tree holds one empty block container, its root.
    pub fn new() -> (r: Gui)
        ensures
            r.wf(),
            r.slot_count() == 1,
            r.kind_of(r.root_node()) == NodeKind::Div,
            r.children(r.root_node()) == Seq::<Node>::empty(),
            r.hovered() is None,
            r.activated() is None,
            r.focused() is None,
            r.passive_focused() is None,
    {
        let root = Node { index: 0, gen: 1 };
        let mut nodes: Vec<Slot> = Vec::new();
        nodes.push(Slot { data: NodeData::new(NodeKind::Div), gen: 1, used: true });
        let gui = Gui {
            nodes,
            root,
            hover: None,
            active: None,
            focus: None,
            passive_focus: None,
            kids: Ghost(Map::empty().insert(0, Seq::<Node>::empty())),
            depth: Ghost(Map::empty().insert(0, 0)),
        };
        proof {
            assert forall|j: int| #[trigger] gui.used(j) implies gui.links_ok(j) by {
                reveal(Gui::kids_ok);
                reveal(Gui::up_ok);
                reveal(Gui::flags_ok);
            }
        }
        gui
    }

    /// Makes a text node holding `value`.
    pub fn create_text(&mut self, value: &str) -> (r: Node)
        requires
            old(self).wf(),
            old(self).slot_count() + 1 < usize::MAX,
        ensures
            final(self).wf(),
            final(self).slot_count() <= old(self).slot_count() + 1,
            !old(self).live(r),
            final(self).live(r),
            final(self).kind_of(r) == NodeKind::Text,
            final(self).parent_of(r) is None,
            final(self).children(r) == Seq::<Node>::empty(),
            final(self).text_of(r) == value@,
            final(self).root_node() == old(self).root_node(),
            forall|n: Node|
                old(self).live(n) ==> {
                    &&& final(self).live(n)
                    &&& final(self).parent_of(n) == old(self).parent_of(n)
                    &&& final(self).children(n) == old(self).children(n)
                    &&& final(self).kind_of(n) == old(self).kind_of(n)
                },
    {
        let node = self.create_node(NodeKind::Text);
        let ghost s0 = *self;
        self.nodes[node.index].data.text = value.to_owned();
        proof {
            assert forall|j: int| #[trigger] self.used(j) implies self.links_ok(j) by {
                assert(s0.used(j));
                s0.lemma_links(s0.handle(j));
                reveal(Gui::kids_ok);
                reveal(Gui::up_ok);
                reveal(Gui::flags_ok);
                s0.lemma_kids(s0.handle(j));
                assert forall|t: int| 0 <= t < s0.kids@[j].len() implies #[trigger] self.d(
                    s0.kids@[j][t].idx(),
                ).parent == s0.d(s0.kids@[j][t].idx()).parent by {}
            }
        }
        node
    }

    /// Whether `n` names a node that exists now; a handle fails this once its
    /// node is freed.
    pub fn is_live(&self, n: Node) -> (r: bool)
        ensures
            r == self.live(n),
    {
        n.index < self.nodes.len() && self.nodes[n.index].used && self.nodes[n.index].gen == n.gen
    }

    /// The root of the tree that the session paints.
    pub fn root(&self) -> (r: Node)
        ensures
            r == self.root_node(),
    {
        self.root
    }

    /// The kind of a live node.
    pub fn kind(&self, n: Node) -> (r: NodeKind)
        requires
            self.live(n),
        ensures
            r == self.kind_of(n),
    {
        self.nodes[n.index].data.kind
    }

    pub fn get_parent(&self, n: Node) -> (r: Option<Node>)
        requires
            self.live(n),
        ensures
            r == self.parent_of(n),
    {
        self.nodes[n.index].data.parent
    }

    pub fn get_first_child(&self, n: Node) -> (r: Option<Node>)
        requires
            self.wf(),
            self.live(n),
        ensures
            r == first_of(self.children(n)),
    {
        proof {
            self.lemma_kids(n);
        }
        self.nodes[n.index].data.first_child
    }

    pub fn get_last_child(&self, n: Node) -> (r: Option<Node>)
        requires
            self.wf(),
            self.live(n),
        ensures
            r == last_of(self.children(n)),
    {
        proof {
            self.lemma_kids(n);
        }
        self.nodes[n.index].data.last_child
    }

    /// The sibling just before a live node among its parent's children.
    pub fn get_prev_sibling(&self, n: Node) -> (r: Option<Node>)
        requires
            self.wf(),
            self.live(n),
        ensures
            r == self.prev_of(n),
    {
        proof {
            self.lemma_sibling(n);
        }
        self.nodes[n.index].data.prev_sibling
    }

    /// The sibling just after a live node among its parent's children.
    pub fn get_next_sibling(&self, n: Node) -> (r: Option<Node>)
        requires
            self.wf(),
            self.live(n),
        ensures
            r == self.next_of(n),
    {
        proof {
            self.lemma_sibling(n);
        }
        self.nodes[n.index].data.next_sibling
    }

    /// The sibling before `n` in its parent's children, if any.
    pub open spec fn prev_of(&self, n: Node) -> Option<Node> {
        match self.parent_of(n) {
            Some(p) => {
                let k = self.children(p);
                let j = k.index_of(n);
                if j > 0 {
                    Some(k[j - 1])
                } else {
                    None
                }
            },
            None => None,
        }
    }

    /// The sibling after `n` in its parent's children, if any.
    pub open spec fn next_of(&self, n: Node) -> Option<Node> {
        match self.parent_of(n) {
            Some(p) => {
                let k = self.children(p);
                let j = k.index_of(n);
                if j + 1 < k.len() {
                    Some(k[j + 1])
                } else {
                    None
                }
            },
            None => None,
        }
    }

    proof fn lemma_sibling(&self, n: Node)
        requires
            self.wf(),
            self.live(n),
        ensures
            self.d(n.idx()).prev_sibling == self.prev_of(n),
            self.d(n.idx()).next_sibling == self.next_of(n),
    {
        self.lemma_in_parent(n);
        if let Some(p) = self.parent_of(n) {
            let k = self.kids@[p.idx()];
            self.lemma_kids(p);
            let j = k.index_of(n);
            assert(k[j] == n);
            assert(self.d(k[j].idx()).parent == Some(p));
        }
    }
}


/// A session reference once the subtree of `c` is freed: cleared when it
/// names a node of that subtree.
pub open spec fn cleared(r: Option<Node>, gui: &Gui, c: Node) -> Option<Node> {
    if r is Some && gui.in_subtree(r.unwrap(), c) {
        None
    } else {
        r
    }
}

/// A session reference once `c` is taken out: cleared when it names `c`.
pub open spec fn forgot(r: Option<Node>, c: Node) -> Option<Node> {
    if r == Some(c) {
        None
    } else {
        r
    }
}

/// Putting `n` after `o` in `without(c, n)` and then taking `o` out leaves
/// `n` at the index that `o` had.
proof fn lemma_replace_seq(c: Seq<Node>, o: Node, n: Node)
    requires
        c.no_duplicates(),
        c.contains(o),
        o != n,
    ensures
        ({
            let d = without(c, n);
            let k = d.index_of(o);
            &&& d.contains(o)
            &&& 0 <= k < d.len()
            &&& d[k] == o
            &&& without(d.insert(k + 1, n), o) == d.update(k, n)
        }),
{
    let d = without(c, n);
    if c.contains(n) {
        let j = c.index_of(n);
        assert(d == c.remove(j));
        let io = c.index_of(o);
        if io < j {
            assert(d[io] == o);
        } else {
            assert(d[io - 1] == o);
        }
        assert(d.no_duplicates()) by {
            assert forall|a: int, b: int| 0 <= a < b < d.len() implies d[a] != d[b] by {
                let aa = if a < j { a } else { a + 1 };
                let bb = if b < j { b } else { b + 1 };
                assert(d[a] == c[aa] && d[b] == c[bb]);
            }
        }
        assert(!d.contains(n)) by {
            if d.contains(n) {
                let t = d.index_of(n);
                let tt = if t < j { t } else { t + 1 };
                assert(c[tt] == n && c[j] == n);
            }
        }
    } else {
        assert(d == c);
    }
    assert(d.contains(o));
    let k = d.index_of(o);
    assert(d[k] == o);
    let e = d.insert(k + 1, n);
    assert(e[k] == o);
    assert(e.no_duplicates()) by {
        assert forall|a: int, b: int| 0 <= a < b < e.len() implies e[a] != e[b] by {
            if a == k + 1 {
                assert(e[b] == d[b - 1]);
            } else if b == k + 1 {
                assert(e[a] == d[a]);
            } else {
                let aa = if a < k + 1 { a } else { a - 1 };
                let bb = if b < k + 1 { b } else { b - 1 };
                assert(e[a] == d[aa] && e[b] == d[bb]);
            }
        }
    }
    assert(e.contains(o));
    let ke = e.index_of(o);
    assert(e[ke] == o);
    assert(ke == k);
    assert(e.remove(k) =~= d.update(k, n));
}

/// The sequence facts behind swapping: with `c[i]` put aside and `x` put in
/// its place from either side, `x` ends at index `i`.
proof fn lemma_swap_seq(c: Seq<Node>, i: int, x: Node)
    requires
        c.no_duplicates(),
        0 <= i < c.len(),
        !c.contains(x),
    ensures
        c.index_of(c[i]) == i,
        without(c, x) == c,
        without(c, c[i]) == c.remove(i),
        without(c.remove(i), x) == c.remove(i),
        without(c.insert(i, x), c[i]) == c.update(i, x),
        c.remove(i).insert(i, x) == c.update(i, x),
        i > 0 ==> c.remove(i).index_of(c[i - 1]) == i - 1,
        i > 0 ==> c.index_of(c[i - 1]) == i - 1,
        seq![x] + c == c.insert(0, x),
{
    lemma_index_of_unique(c, i);
    let r = c.remove(i);
    assert(!r.contains(x)) by {
        if r.contains(x) {
            let t = r.index_of(x);
            if t < i {
                assert(r[t] == c[t]);
            } else {
                assert(r[t] == c[t + 1]);
            }
        }
    }
    assert(r.insert(i, x) =~= c.update(i, x));
    let e = c.insert(i, x);
    assert(e[i + 1] == c[i]);
    assert(e.no_duplicates()) by {
        assert forall|p: int, q: int| 0 <= p < q < e.len() implies e[p] != e[q] by {
            if p == i {
                assert(e[q] == c[q - 1]);
            } else if q == i {
                assert(e[p] == c[p]);
            } else {
                let pp = if p < i { p } else { p - 1 };
                let qq = if q < i { q } else { q - 1 };
                assert(e[p] == c[pp] && e[q] == c[qq]);
            }
        }
    }
    lemma_index_of_unique(e, i + 1);
    assert(e.remove(i + 1) =~= c.update(i, x));
    assert(seq![x] + c =~= c.insert(0, x));
    if i > 0 {
        lemma_index_of_unique(c, i - 1);
        assert(r.no_duplicates()) by {
            assert forall|p: int, q: int| 0 <= p < q < r.len() implies r[p] != r[q] by {
                let pp = if p < i { p } else { p + 1 };
                let qq = if q < i { q } else { q + 1 };
                assert(r[p] == c[pp] && r[q] == c[qq]);
            }
        }
        assert(r[i - 1] == c[i - 1]);
        lemma_index_of_unique(r, i - 1);
    }
}

/// `s` with `x` taken out, where it occurs.
pub open spec fn without(s: Seq<Node>, x: Node) -> Seq<Node> {
    if s.contains(x) {
        s.remove(s.index_of(x))
    } else {
        s
    }
}

proof fn lemma_index_of_unique(s: Seq<Node>, k: int)
    requires
        s.no_duplicates(),
        0 <= k < s.len(),
    ensures
        s.contains(s[k]),
        s.index_of(s[k]) == k,
{
    assert(s.contains(s[k]));
    let j = s.index_of(s[k]);
    assert(s[j] == s[k]);
}

impl Gui {
    /// The session state and every node's contents are as in `o`; only the
    /// tree's links may differ.
    pub closed spec fn keeps_nodes(&self, o: &Gui) -> bool {
        self.same_nodes(o)
    }

    /// Whether `a` and `b` name the same live nodes.
    pub open spec fn same_live(&self, o: &Gui) -> bool {
        forall|n: Node| #[trigger] self.live(n) == o.live(n)
    }

    /// Takes `c` out of its parent's children, if it has a parent.
    fn detach_if_attached(&mut self, c: Node)
        requires
            old(self).wf(),
            old(self).live(c),
        ensures
            final(self).wf(),
            final(self).slot_count() == old(self).slot_count(),
            final(self).same_nodes(old(self)),
            final(self).parent_of(c) is None,
            forall|n: Node|
                old(self).live(n) && n != c ==> final(self).parent_of(n) == old(self).parent_of(n),
            forall|n: Node|
                old(self).live(n) ==> final(self).children(n) == without(old(self).children(n), c),
            forall|x: Node, y: Node|
                old(self).live(x) && !old(self).in_subtree(x, c) ==> final(self).in_subtree(x, y)
                    == old(self).in_subtree(x, y),
    {
        let ghost s0 = *self;
        if self.nodes[c.index].data.parent.is_some() {
            let r = self.detach(c);
            proof {
                let q = r@.0;
                let k = r@.1;
                s0.lemma_in_parent(c);
                s0.lemma_kids(q);
                lemma_index_of_unique(s0.kids@[q.idx()], k);
                assert forall|n: Node|
                    s0.live(n) implies self.children(n) == without(s0.children(n), c) by {
                    if n.idx() != q.idx() {
                        s0.lemma_kids(n);
                        if s0.kids@[n.idx()].contains(c) {
                            let t = s0.kids@[n.idx()].index_of(c);
                            assert(s0.d(s0.kids@[n.idx()][t].idx()).parent == Some(n));
                        }
                    }
                }
                assert forall|x: Node, y: Node|
                    s0.live(x) && !s0.in_subtree(x, c) implies self.in_subtree(x, y)
                    == s0.in_subtree(x, y) by {
                    assert forall|z: Node| s0.live(z) <==> self.live(z) by {}
                    Gui::lemma_subtree_frame(&s0, self, c, x);
                }
            }
        } else {
            proof {
                assert forall|n: Node|
                    s0.live(n) implies self.children(n) == without(s0.children(n), c) by {
                    s0.lemma_kids(n);
                    if s0.kids@[n.idx()].contains(c) {
                        let t = s0.kids@[n.idx()].index_of(c);
                        assert(s0.d(s0.kids@[n.idx()][t].idx()).parent == Some(n));
                    }
                }
            }
        }
    }

    /// Moves `new_child` to the end of the children of `parent`.
    pub fn append_child(&mut self, parent: Node, new_child: Node)
        requires
            old(self).wf(),
            old(self).live(parent),
            old(self).live(new_child),
            new_child != old(self).root_node(),
            !old(self).in_subtree(parent, new_child),
        ensures
            final(self).wf(),
            final(self).slot_count() == old(self).slot_count(),
            final(self).keeps_nodes(old(self)),
            final(self).same_live(old(self)),
            final(self).children(parent) == without(old(self).children(parent), new_child).push(
                new_child,
            ),
            forall|n: Node|
                old(self).live(n) && n != parent ==> final(self).children(n) == without(
                    old(self).children(n),
                    new_child,
                ),
            final(self).parent_of(new_child) == Some(parent),
            forall|n: Node|
                old(self).live(n) && n != new_child ==> final(self).parent_of(n) == old(
                    self,
                ).parent_of(n),
    {
        let ghost s0 = *self;
        self.detach_if_attached(new_child);
        let ghost s1 = *self;
        let prev = self.nodes[parent.index].data.last_child;
        proof {
            s1.lemma_kids(parent);
            assert(s1.live(parent));
            assert(!s1.in_subtree(parent, new_child));
        }
        self.attach(parent, new_child, prev, None, Ghost(s1.kids@[parent.idx()].len() as int));
        proof {
            assert(s1.kids@[parent.idx()].insert(s1.kids@[parent.idx()].len() as int, new_child)
                =~= s1.kids@[parent.idx()].push(new_child));
            assert forall|n: Node| #[trigger] self.live(n) == s0.live(n) by {}
            assert forall|n: Node|
                s0.live(n) && n != parent implies self.children(n) == without(
                    s0.children(n),
                    new_child,
                ) by {
                assert(n.idx() != parent.idx());
            }
            assert forall|n: Node|
                s0.live(n) && n != new_child implies self.parent_of(n) == s0.parent_of(n) by {
                assert(n.idx() != new_child.idx());
            }
        }
    }

    /// Moves `new_child` to the front of the children of `parent`.
    pub fn prepend_child(&mut self, parent: Node, new_child: Node)
        requires
            old(self).wf(),
            old(self).live(parent),
            old(self).live(new_child),
            new_child != old(self).root_node(),
            !old(self).in_subtree(parent, new_child),
        ensures
            final(self).wf(),
            final(self).slot_count() == old(self).slot_count(),
            final(self).keeps_nodes(old(self)),
            final(self).same_live(old(self)),
            final(self).children(parent) == seq![new_child] + without(
                old(self).children(parent),
                new_child,
            ),
            forall|n: Node|
                old(self).live(n) && n != parent ==> final(self).children(n) == without(
                    old(self).children(n),
                    new_child,
                ),
            final(self).parent_of(new_child) == Some(parent),
            forall|n: Node|
                old(self).live(n) && n != new_child ==> final(self).parent_of(n) == old(
                    self,
                ).parent_of(n),
    {
        let ghost s0 = *self;
        self.detach_if_attached(new_child);
        let ghost s1 = *self;
        let next = self.nodes[parent.index].data.first_child;
        proof {
            s1.lemma_kids(parent);
        }
        self.attach(parent, new_child, None, next, Ghost(0));
        proof {
            assert(s1.kids@[parent.idx()].insert(0, new_child) =~= seq![new_child] + s1.kids@[parent.idx()]);
            assert forall|n: Node| #[trigger] self.live(n) == s0.live(n) by {}
            assert forall|n: Node|
                s0.live(n) && n != parent implies self.children(n) == without(
                    s0.children(n),
                    new_child,
                ) by {
                assert(n.idx() != parent.idx());
            }
            assert forall|n: Node|
                s0.live(n) && n != new_child implies self.parent_of(n) == s0.parent_of(n) by {
                assert(n.idx() != new_child.idx());
            }
        }
    }

    /// Moves `new_child` just before `ref_child` among the children of
    /// `parent`, or to their end when `ref_child` is `None`. Placing a node
    /// before itself changes nothing.
    pub fn insert_before_child(&mut self, parent: Node, ref_child: Option<Node>, new_child: Node)
        requires
            old(self).wf(),
            old(self).live(parent),
            old(self).live(new_child),
            new_child != old(self).root_node(),
            !old(self).in_subtree(parent, new_child),
            ref_child matches Some(r) ==> old(self).live(r) && (r != new_child ==> old(
                self,
            ).parent_of(r) == Some(parent)),
        ensures
            final(self).wf(),
            final(self).slot_count() == old(self).slot_count(),
            final(self).keeps_nodes(old(self)),
            final(self).same_live(old(self)),
            ref_child == Some(new_child) ==> *final(self) == *old(self),
            ref_child != Some(new_child) ==> forall|n: Node|
                old(self).live(n) && n != parent ==> final(self).children(n) == without(
                    old(self).children(n),
                    new_child,
                ),
            ref_child is None ==> final(self).children(parent) == without(
                old(self).children(parent),
                new_child,
            ).push(new_child),
            ref_child is Some && ref_child != Some(new_child) ==> final(self).children(parent)
                == without(old(self).children(parent), new_child).insert(
                without(old(self).children(parent), new_child).index_of(ref_child.unwrap()),
                new_child,
            ),
            ref_child != Some(new_child) ==> final(self).parent_of(new_child) == Some(parent),
            forall|n: Node|
                old(self).live(n) && n != new_child ==> final(self).parent_of(n) == old(
                    self,
                ).parent_of(n),
            forall|x: Node, y: Node|
                old(self).live(x) && !old(self).in_subtree(x, new_child) ==> final(self).in_subtree(x, y)
                    == old(self).in_subtree(x, y),
    {
        match ref_child {
            None => {
                let ghost s0 = *self;
                self.append_child(parent, new_child);
                proof {
                    assert forall|x: Node, y: Node|
                        s0.live(x) && !s0.in_subtree(x, new_child) implies self.in_subtree(x, y)
                        == s0.in_subtree(x, y) by {
                        Gui::lemma_moved_frame(&s0, self, new_child, x);
                    }
                }
            },
            Some(r) => {
                if r == new_child {
                    return;
                }
                let ghost s0 = *self;
                self.detach_if_attached(new_child);
                let ghost s1 = *self;
                let prev = self.nodes[r.index].data.prev_sibling;
                let ghost k: int;
                proof {
                    s1.lemma_in_parent(r);
                    s1.lemma_kids(parent);
                    k = s1.kids@[parent.idx()].index_of(r);
                    assert(s1.kids@[parent.idx()][k] == r);
                    s1.lemma_sibling(r);
                }
                self.attach(parent, new_child, prev, Some(r), Ghost(k));
                proof {
                    assert forall|n: Node| #[trigger] self.live(n) == s0.live(n) by {}
                    assert forall|n: Node|
                        s0.live(n) && n != new_child implies self.parent_of(n) == s0.parent_of(n) by {
                        assert(n.idx() != new_child.idx());
                    }
                    assert forall|n: Node|
                        s0.live(n) && n != parent implies self.children(n) == without(s0.children(n), new_child) by {
                        assert(n.idx() != parent.idx());
                    }
                    assert forall|x: Node, y: Node|
                        s0.live(x) && !s0.in_subtree(x, new_child) implies self.in_subtree(x, y)
                        == s0.in_subtree(x, y) by {
                        Gui::lemma_moved_frame(&s0, self, new_child, x);
                    }
                }
            },
        }
    }

    /// Moves `new_child` just after `ref_child` among the children of
    /// `parent`, or to their front when `ref_child` is `None`. Placing a node
    /// after itself changes nothing.
    pub fn insert_after_child(&mut self, parent: Node, ref_child: Option<Node>, new_child: Node)
        requires
            old(self).wf(),
            old(self).live(parent),
            old(self).live(new_child),
            new_child != old(self).root_node(),
            !old(self).in_subtree(parent, new_child),
            ref_child matches Some(r) ==> old(self).live(r) && (r != new_child ==> old(
                self,
            ).parent_of(r) == Some(parent)),
        ensures
            final(self).wf(),
            final(self).slot_count() == old(self).slot_count(),
            final(self).keeps_nodes(old(self)),
            final(self).same_live(old(self)),
            ref_child == Some(new_child) ==> *final(self) == *old(self),
            ref_child != Some(new_child) ==> forall|n: Node|
                old(self).live(n) && n != parent ==> final(self).children(n) == without(
                    old(self).children(n),
                    new_child,
                ),
            ref_child is None ==> final(self).children(parent) == seq![new_child] + without(
                old(self).children(parent),
                new_child,
            ),
            ref_child is Some && ref_child != Some(new_child) ==> final(self).children(parent)
                == without(old(self).children(parent), new_child).insert(
                without(old(self).children(parent), new_child).index_of(ref_child.unwrap()) + 1,
                new_child,
            ),
            ref_child != Some(new_child) ==> final(self).parent_of(new_child) == Some(parent),
            forall|n: Node|
                old(self).live(n) && n != new_child ==> final(self).parent_of(n) == old(
                    self,
                ).parent_of(n),
            forall|x: Node, y: Node|
                old(self).live(x) && !old(self).in_subtree(x, new_child) ==> final(self).in_subtree(x, y)
                    == old(self).in_subtree(x, y),
    {
        let ghost s00 = *self;
        match ref_child {
            None => {
                self.prepend_child(parent, new_child);
                proof {
                    assert forall|x: Node, y: Node|
                        s00.live(x) && !s00.in_subtree(x, new_child) implies self.in_subtree(x, y)
                        == s00.in_subtree(x, y) by {
                        Gui::lemma_moved_frame(&s00, self, new_child, x);
                    }
                }
            },
            Some(r) => {
                if r == new_child {
                    return;
                }
                let ghost s0 = *self;
                self.detach_if_attached(new_child);
                let ghost s1 = *self;
                let next = self.nodes[r.index].data.next_sibling;
                let ghost k: int;
                proof {
                    s1.lemma_in_parent(r);
                    s1.lemma_kids(parent);
                    k = s1.kids@[parent.idx()].index_of(r);
                    assert(s1.kids@[parent.idx()][k] == r);
                    s1.lemma_sibling(r);
                }
                self.attach(parent, new_child, Some(r), next, Ghost(k + 1));
                proof {
                    assert forall|n: Node| #[trigger] self.live(n) == s0.live(n) by {}
                    assert forall|n: Node|
                        s0.live(n) && n != parent implies self.children(n) == without(s0.children(n), new_child) by {
                        assert(n.idx() != parent.idx());
                    }
                    assert forall|n: Node|
                        s0.live(n) && n != new_child implies self.parent_of(n) == s0.parent_of(n) by {
                        assert(n.idx() != new_child.idx());
                    }
                    assert forall|x: Node, y: Node|
                        s00.live(x) && !s00.in_subtree(x, new_child) implies self.in_subtree(x, y)
                        == s00.in_subtree(x, y) by {
                        Gui::lemma_moved_frame(&s00, self, new_child, x);
                    }
                }
            },
        }
    }
}


impl Gui {
    /// Whether `n` is `c` or one of its descendants: walks up from `n`.
    pub fn is_in_subtree(&self, n: Node, c: Node) -> (r: bool)
        requires
            self.wf(),
            self.live(n),
        ensures
            r == self.in_subtree(n, c),
    {
        let mut at = n;
        proof {
            self.lemma_step(at, c);
        }
        while at != c && self.nodes[at.index].data.parent.is_some()
            invariant
                self.wf(),
                self.live(at),
                self.in_subtree(n, c) == self.in_subtree(at, c),
            decreases self.depth_of(at),
        {
            proof {
                self.lemma_step(at, c);
            }
            at = self.nodes[at.index].data.parent.unwrap();
        }
        proof {
            self.lemma_step(at, c);
        }
        at == c
    }

    /// Frees `c` and all its descendants; `c` stands alone. References of the
    /// session to a freed node are cleared.
    #[verifier::spinoff_prover]
    #[verifier::rlimit(50)]
    fn free_subtree(&mut self, c: Node)
        requires
            old(self).wf(),
            old(self).live(c),
            old(self).parent_of(c) is None,
            c != old(self).root_node(),
        ensures
            final(self).wf(),
            final(self).slot_count() == old(self).slot_count(),
            forall|n: Node|
                old(self).live(n) ==> (final(self).live(n) <==> !old(self).in_subtree(n, c)),
            forall|n: Node| !old(self).live(n) ==> !final(self).live(n),
            forall|n: Node|
                old(self).live(n) && !old(self).in_subtree(n, c) ==> {
                    &&& final(self).parent_of(n) == old(self).parent_of(n)
                    &&& final(self).children(n) == old(self).children(n)
                    &&& final(self).kind_of(n) == old(self).kind_of(n)
                    &&& final(self).style_of(n) == old(self).style_of(n)
                    &&& final(self).text_of(n) == old(self).text_of(n)
                    &&& final(self).clickable(n) == old(self).clickable(n)
                    &&& final(self).flags_of(n) == old(self).flags_of(n)
                },
            final(self).root_node() == old(self).root_node(),
            final(self).hovered() == (if old(self).hovered() matches Some(h) && old(self).in_subtree(h, c) {
                None
            } else {
                old(self).hovered()
            }),
            final(self).activated() == (if old(self).activated() matches Some(a) && old(self).in_subtree(a, c) {
                None
            } else {
                old(self).activated()
            }),
            final(self).focused() == (if old(self).focused() matches Some(f) && old(self).in_subtree(f, c) {
                None
            } else {
                old(self).focused()
            }),
    {
        let ghost s0 = *self;
        let n = self.nodes.len();
        let mut mark: Vec<bool> = Vec::new();
        let mut i: usize = 0;
        while i < n
            invariant
                *self == s0,
                s0.wf(),
                n == self.nodes@.len(),
                i <= n,
                mark@.len() == i,
                forall|j: int|
                    0 <= j < i ==> mark@[j] == (s0.used(j) && s0.in_subtree(s0.handle(j), c)),
            decreases n - i,
        {
            let h = Node { index: i, gen: self.nodes[i].gen };
            assert(h == s0.handle(i as int));
            let m = self.nodes[i].used && self.is_in_subtree(h, c);
            mark.push(m);
            i = i + 1;
        }
        let mut i: usize = 0;
        while i < n
            invariant
                n == self.nodes@.len(),
                n == s0.nodes@.len(),
                i <= n,
                mark@.len() == n,
                forall|j: int|
                    0 <= j < n ==> mark@[j] == (s0.used(j) && s0.in_subtree(s0.handle(j), c)),
                forall|j: int|
                    0 <= j < n && !mark@[j] ==> #[trigger] self.nodes@[j] == s0.nodes@[j],
                forall|j: int|
                    0 <= j < i && mark@[j] ==> !(#[trigger] self.nodes@[j]).used && (self.nodes@[j].gen
                        != s0.nodes@[j].gen || s0.nodes@[j].gen == u32::MAX),
                forall|j: int|
                    i <= j < n ==> #[trigger] self.nodes@[j] == s0.nodes@[j],
                self.root == s0.root,
                self.hover == s0.hover,
                self.active == s0.active,
                self.focus == s0.focus,
                self.passive_focus == s0.passive_focus,
                self.kids == s0.kids,
                self.depth == s0.depth,
            decreases n - i,
        {
            if mark[i] {
                self.nodes[i].data = NodeData::new(NodeKind::Div);
                self.nodes[i].used = false;
                if self.nodes[i].gen < u32::MAX {
                    self.nodes[i].gen = self.nodes[i].gen + 1;
                }
            }
            i = i + 1;
        }
        if let Some(h) = self.hover {
            if mark[h.index] {
                self.hover = None;
            }
        }
        if let Some(a) = self.active {
            if mark[a.index] {
                self.active = None;
            }
        }
        if let Some(f) = self.focus {
            if mark[f.index] {
                self.focus = None;
            }
        }
        if let Some(pf) = self.passive_focus {
            if mark[pf.0.index] {
                self.passive_focus = None;
            }
        }
        proof {
            let keep = |x: int| !mark@[x];
            assert forall|z: Node| s0.live(z) implies (self.live(z) <==> !s0.in_subtree(z, c)) by {
                assert(s0.handle(z.idx()) == z);
            }
            assert forall|z: Node| #[trigger] self.live(z) implies s0.live(z) && !mark@[z.idx()] by {
                if mark@[z.idx()] {
                    assert(!self.nodes@[z.idx()].used);
                }
            }
            assert forall|j: int| #[trigger] self.used(j) implies self.links_ok(j) by {
                assert(!mark@[j]);
                assert(s0.used(j));
                let h = s0.handle(j);
                assert(s0.live(h));
                assert(!s0.in_subtree(h, c));
                s0.lemma_kids(h);
                assert forall|t: int| 0 <= t < s0.kids@[j].len() implies keep(
                    #[trigger] s0.kids@[j][t].idx(),
                ) by {
                    let kt = s0.kids@[j][t];
                    assert(s0.d(kt.idx()).parent == Some(h));
                    s0.lemma_step(kt, c);
                    s0.lemma_links(c);
                    assert(s0.handle(kt.idx()) == kt);
                }
                s0.lemma_step(h, c);
                if let Some(q) = s0.d(j).parent {
                    assert(s0.handle(q.idx()) == q);
                }
                assert forall|x: int| keep(x) && #[trigger] s0.used(x) implies self.used(x)
                    && self.nodes@[x] == s0.nodes@[x] && self.kids@[x] == s0.kids@[x]
                    && self.depth@[x] == s0.depth@[x] by {}
                assert(s0.links_ok(j));
                reveal(Gui::flags_ok);
                Gui::lemma_frame_slot(self, &s0, keep, j);
            }
            s0.lemma_links(s0.root);
            s0.lemma_step(s0.root, c);
            assert(s0.handle(s0.root.idx()) == s0.root);
            if let Some(h) = s0.hover {
                assert(s0.handle(h.idx()) == h);
            }
            if let Some(a) = s0.active {
                assert(s0.handle(a.idx()) == a);
            }
            if let Some(f) = s0.focus {
                assert(s0.handle(f.idx()) == f);
            }
            if let Some(pf) = s0.passive_focus {
                assert(s0.handle(pf.0.idx()) == pf.0);
            }
            assert forall|z: Node|
                s0.live(z) && !s0.in_subtree(z, c) implies self.children(z) == s0.children(z) by {}
        }
    }
}


impl Gui {
    /// Both states have the same slots with the same links and the same
    /// ghost tree; contents and flags may differ.
    spec fn same_links(&self, o: &Gui) -> bool {
        &&& self.nodes@.len() == o.nodes@.len()
        &&& self.kids == o.kids
        &&& self.depth == o.depth
        &&& forall|i: int|
            0 <= i < self.nodes@.len() ==> {
                &&& (#[trigger] self.nodes@[i]).used == o.nodes@[i].used
                &&& self.nodes@[i].gen == o.nodes@[i].gen
                &&& self.nodes@[i].data.parent == o.nodes@[i].data.parent
                &&& self.nodes@[i].data.prev_sibling == o.nodes@[i].data.prev_sibling
                &&& self.nodes@[i].data.next_sibling == o.nodes@[i].data.next_sibling
                &&& self.nodes@[i].data.first_child == o.nodes@[i].data.first_child
                &&& self.nodes@[i].data.last_child == o.nodes@[i].data.last_child
            }
    }

    proof fn lemma_links_frame(s1: &Gui, s0: &Gui, j: int)
        requires
            s0.wf(),
            s0.used(j),
            s1.same_links(s0),
        ensures
            s1.kids_ok(j),
            s1.up_ok(j),
            s1.handle(j) == s0.handle(j),
    {
        assert(s0.links_ok(j));
        assert forall|z: Node| s1.live(z) == s0.live(z) by {}
        reveal(Gui::kids_ok);
        reveal(Gui::up_ok);
        let kk = s0.kids@[j];
        assert forall|t: int| 0 <= t < kk.len() implies {
            &&& s1.live(kk[t])
            &&& (#[trigger] s1.d(kk[t].idx())).parent == Some(s1.handle(j))
            &&& s1.d(kk[t].idx()).prev_sibling == (if t == 0 {
                None
            } else {
                Some(kk[t - 1])
            })
            &&& s1.d(kk[t].idx()).next_sibling == (if t + 1 == kk.len() {
                None
            } else {
                Some(kk[t + 1])
            })
        } by {
            assert(s0.d(kk[t].idx()).parent == Some(s0.handle(j)));
        }
    }

    /// Clears every reference of the session to `c`, and the flags of `c`.
    fn clear_pointer_state(&mut self, c: Node)
        requires
            old(self).wf(),
            old(self).live(c),
        ensures
            final(self).wf(),
            final(self).slot_count() == old(self).slot_count(),
            final(self).same_links(old(self)),
            final(self).hovered() == (if old(self).hovered() == Some(c) {
                None
            } else {
                old(self).hovered()
            }),
            final(self).activated() == (if old(self).activated() == Some(c) {
                None
            } else {
                old(self).activated()
            }),
            final(self).focused() == (if old(self).focused() == Some(c) {
                None
            } else {
                old(self).focused()
            }),
            final(self).passive_focused() == old(self).passive_focused(),
            final(self).root_node() == old(self).root_node(),
            final(self).flags_of(c) == (false, false, false),
            forall|n: Node|
                old(self).live(n) && n.idx() != c.idx() ==> final(self).flags_of(n) == old(
                    self,
                ).flags_of(n),
            forall|n: Node|
                #![trigger final(self).kind_of(n)]
                #![trigger final(self).style_of(n)]
                #![trigger final(self).text_of(n)]
                #![trigger final(self).clickable(n)]
                old(self).live(n) ==> {
                    &&& final(self).kind_of(n) == old(self).kind_of(n)
                    &&& final(self).style_of(n) == old(self).style_of(n)
                    &&& final(self).computed_style_of(n) == old(self).computed_style_of(n)
                    &&& final(self).text_of(n) == old(self).text_of(n)
                    &&& final(self).clickable(n) == old(self).clickable(n)
                },
    {
        let ghost s0 = *self;
        if self.hover == Some(c) {
            self.hover = None;
        }
        if self.active == Some(c) {
            self.active = None;
        }
        if self.focus == Some(c) {
            self.focus = None;
        }
        self.nodes[c.index].data.hover = false;
        self.nodes[c.index].data.active = false;
        self.nodes[c.index].data.focus = false;
        proof {
            assert(self.same_links(&s0));
            assert forall|j: int| #[trigger] self.used(j) implies self.links_ok(j) by {
                assert(s0.used(j));
                Gui::lemma_links_frame(self, &s0, j);
                assert(s0.links_ok(j));
                reveal(Gui::flags_ok);
            }
        }
    }

    /// Takes `child` out of the children of `parent`, and frees its subtree
    /// unless `keep_alive`. The session forgets `child` as hovered, active or
    /// focused node.
    pub fn remove_child(&mut self, parent: Node, child: Node, keep_alive: bool)
        requires
            old(self).wf(),
            old(self).live(child),
            old(self).parent_of(child) == Some(parent),
        ensures
            final(self).wf(),
            final(self).slot_count() == old(self).slot_count(),
            final(self).children(parent) == without(old(self).children(parent), child),
            final(self).root_node() == old(self).root_node(),
            final(self).hovered() != Some(child),
            final(self).activated() != Some(child),
            final(self).focused() != Some(child),
            keep_alive ==> final(self).same_live(old(self)) && final(self).parent_of(child) is None,
            keep_alive ==> final(self).hovered() == forgot(old(self).hovered(), child)
                && final(self).activated() == forgot(old(self).activated(), child)
                && final(self).focused() == forgot(old(self).focused(), child),
            keep_alive ==> forall|n: Node|
                old(self).live(n) && n != parent ==> final(self).children(n) == old(self).children(n),
            !keep_alive ==> forall|n: Node|
                old(self).live(n) ==> (final(self).live(n) <==> !old(self).in_subtree(n, child)),
            !keep_alive ==> forall|n: Node| !old(self).live(n) ==> !final(self).live(n),
            !keep_alive ==> final(self).hovered() == cleared(old(self).hovered(), old(self), child)
                && final(self).activated() == cleared(old(self).activated(), old(self), child)
                && final(self).focused() == cleared(old(self).focused(), old(self), child),
            forall|n: Node|
                old(self).live(n) && !old(self).in_subtree(n, child) ==> {
                    &&& final(self).live(n)
                    &&& final(self).parent_of(n) == old(self).parent_of(n)
                    &&& final(self).kind_of(n) == old(self).kind_of(n)
                    &&& (n != parent ==> final(self).children(n) == old(self).children(n))
                },
    {
        let ghost s0 = *self;
        self.clear_pointer_state(child);
        let ghost s1 = *self;
        proof {
            s0.lemma_in_parent(child);
            s0.lemma_step(child, child);
            assert forall|z: Node| s1.live(z) == s0.live(z) by {}
            assert forall|x: Node| s0.live(x) implies s1.in_subtree(x, child) == s0.in_subtree(x, child) by {
                Gui::lemma_reaches_frame(&s0, &s1, x, child, s0.depth@[x.idx()]);
            }
        }
        self.detach_if_attached(child);
        let ghost s2 = *self;
        proof {
            if s0.in_subtree(parent, child) {
                s0.lemma_depth_le(parent, child);
            }
            assert(s1.in_subtree(parent, child) == s0.in_subtree(parent, child));
            assert(!s2.in_subtree(parent, child));
            assert(s1.children(parent) == s0.children(parent));
            assert forall|n: Node| s0.live(n) implies s2.in_subtree(n, child) == s0.in_subtree(n, child) by {
                if s0.in_subtree(n, child) {
                    Gui::lemma_subtree_into(&s1, &s2, child, n);
                } else {
                    Gui::lemma_reaches_frame(&s0, &s1, n, child, s0.depth@[n.idx()]);
                }
            }
            assert forall|n: Node| s0.live(n) && n != parent implies s2.children(n) == s0.children(n) by {
                s0.lemma_kids(n);
                if s0.kids@[n.idx()].contains(child) {
                    let t = s0.kids@[n.idx()].index_of(child);
                    assert(s0.d(s0.kids@[n.idx()][t].idx()).parent == Some(n));
                }
            }
            assert forall|n: Node| s0.live(n) && !s0.in_subtree(n, child) implies {
                &&& s2.live(n)
                &&& s2.parent_of(n) == s0.parent_of(n)
                &&& s2.kind_of(n) == s0.kind_of(n)
                &&& !s2.in_subtree(n, child)
            } by {
                s0.lemma_step(n, child);
                assert(s1.kind_of(n) == s0.kind_of(n));
                assert(s1.parent_of(n) == s0.parent_of(n));
                Gui::lemma_reaches_frame(&s0, &s1, n, child, s0.depth@[n.idx()]);
                assert(s1.live(n));
                assert(0 <= n.idx() < s1.nodes@.len());
                assert(s2.nodes@[n.idx()].data.kind == s1.nodes@[n.idx()].data.kind);
            }
        }
        if !keep_alive {
            proof {
                assert(child != s2.root);
                s0.lemma_links(s0.root);
            }
            self.free_subtree(child);
            proof {
                assert forall|n: Node| s0.live(n) && !s0.in_subtree(n, child) implies !s2.in_subtree(n, child) by {
                    Gui::lemma_reaches_frame(&s0, &s1, n, child, s0.depth@[n.idx()]);
                }
                assert forall|n: Node| s0.live(n) implies (self.live(n) <==> !s0.in_subtree(n, child)) by {
                    if s0.in_subtree(n, child) {
                        Gui::lemma_subtree_into(&s1, &s2, child, n);
                    }
                }
                s0.lemma_kids(parent);
                assert forall|n: Node|
                    s0.live(n) && !s0.in_subtree(n, child) && n != parent implies s2.children(n) == s0.children(n) by {
                    s0.lemma_kids(n);
                    if s0.kids@[n.idx()].contains(child) {
                        let t = s0.kids@[n.idx()].index_of(child);
                        assert(s0.d(s0.kids@[n.idx()][t].idx()).parent == Some(n));
                    }
                }
            }
        } else {
            proof {
                assert forall|n: Node|
                    s0.live(n) && !s0.in_subtree(n, child) && n != parent implies s2.children(n) == s0.children(n) by {
                    s0.lemma_kids(n);
                    if s0.kids@[n.idx()].contains(child) {
                        let t = s0.kids@[n.idx()].index_of(child);
                        assert(s0.d(s0.kids@[n.idx()][t].idx()).parent == Some(n));
                    }
                }
            }
        }
    }

    proof fn lemma_reaches_frame(s0: &Gui, s1: &Gui, x: Node, c: Node, fuel: nat)
        requires
            s0.wf(),
            s0.live(x),
            s1.same_links(s0),
        ensures
            s1.reaches(x, c, fuel) == s0.reaches(x, c, fuel),
        decreases fuel,
    {
        s0.lemma_step(x, c);
        assert(s1.d(x.idx()).parent == s0.d(x.idx()).parent);
        if fuel > 0 {
            match s0.d(x.idx()).parent {
                Some(p) => Gui::lemma_reaches_frame(s0, s1, p, c, (fuel - 1) as nat),
                None => {},
            }
        }
    }

    /// A node below `c` stays below it when `c` is unlinked from its parent.
    proof fn lemma_subtree_into(s1: &Gui, s2: &Gui, c: Node, n: Node)
        requires
            s1.wf(),
            s2.wf(),
            s1.live(n),
            s1.in_subtree(n, c),
            forall|z: Node| #[trigger] s1.live(z) == s2.live(z),
            forall|z: Node| s1.live(z) && z != c ==> s2.parent_of(z) == s1.parent_of(z),
        ensures
            s2.in_subtree(n, c),
        decreases s1.depth_of(n),
    {
        s1.lemma_step(n, c);
        s2.lemma_step(n, c);
        if n != c {
            let q = s1.parent_of(n).unwrap();
            Gui::lemma_subtree_into(s1, s2, c, q);
        }
    }

    /// Takes `node` out of its parent's children, if it has a parent, and
    /// frees its subtree unless `keep_alive`.
    pub fn remove_node(&mut self, node: Node, keep_alive: bool)
        requires
            old(self).wf(),
            old(self).live(node),
            node != old(self).root_node(),
        ensures
            final(self).wf(),
            final(self).slot_count() == old(self).slot_count(),
            final(self).root_node() == old(self).root_node(),
            old(self).parent_of(node) matches Some(p) ==> final(self).children(p) == without(
                old(self).children(p),
                node,
            ),
            !keep_alive ==> final(self).hovered() == cleared(old(self).hovered(), old(self), node)
                && final(self).activated() == cleared(old(self).activated(), old(self), node)
                && final(self).focused() == cleared(old(self).focused(), old(self), node),
            !keep_alive ==> forall|n: Node|
                old(self).live(n) ==> (final(self).live(n) <==> !old(self).in_subtree(n, node)),
            !keep_alive ==> forall|n: Node| !old(self).live(n) ==> !final(self).live(n),
            keep_alive ==> final(self).same_live(old(self)) && final(self).parent_of(node) is None,
    {
        match self.nodes[node.index].data.parent {
            Some(parent) => {
                self.remove_child(parent, node, keep_alive);
            },
            None => {
                if !keep_alive {
                    self.free_subtree(node);
                    proof {
                        old(self).lemma_step(node, node);
                    }
                }
            },
        }
    }

    /// Takes `node` out of the tree and frees it with all its descendants;
    /// its handle, and theirs, are stale from then on, and the session no
    /// longer names any of them.
    pub fn destroy_node(&mut self, node: Node)
        requires
            old(self).wf(),
            old(self).live(node),
            node != old(self).root_node(),
        ensures
            final(self).wf(),
            final(self).slot_count() == old(self).slot_count(),
            forall|n: Node|
                old(self).live(n) ==> (final(self).live(n) <==> !old(self).in_subtree(n, node)),
            forall|n: Node| !old(self).live(n) ==> !final(self).live(n),
            old(self).parent_of(node) matches Some(p) ==> final(self).children(p) == without(
                old(self).children(p),
                node,
            ),
            final(self).hovered() == cleared(old(self).hovered(), old(self), node),
            final(self).activated() == cleared(old(self).activated(), old(self), node),
            final(self).focused() == cleared(old(self).focused(), old(self), node),
    {
        self.remove_node(node, false);
    }
}


impl Gui {
    /// A state whose links, flags and session references are those of a wf
    /// state is wf.
    proof fn lemma_contents_frame(s1: &Gui, s0: &Gui)
        requires
            s0.wf(),
            s1.same_links(s0),
            s1.root == s0.root,
            s1.hover == s0.hover,
            s1.active == s0.active,
            s1.focus == s0.focus,
            s1.passive_focus == s0.passive_focus,
            forall|i: int|
                0 <= i < s1.nodes@.len() ==> (#[trigger] s1.nodes@[i]).data.hover == s0.nodes@[i].data.hover
                    && s1.nodes@[i].data.active == s0.nodes@[i].data.active && s1.nodes@[i].data.focus
                    == s0.nodes@[i].data.focus,
        ensures
            s1.wf(),
            s1.same_live(s0),
    {
        assert forall|z: Node| #[trigger] s1.live(z) == s0.live(z) by {}
        assert forall|j: int| #[trigger] s1.used(j) implies s1.links_ok(j) by {
            assert(s0.used(j));
            Gui::lemma_links_frame(s1, s0, j);
            assert(s0.links_ok(j));
            reveal(Gui::flags_ok);
        }
        s0.lemma_links(s0.root);
        reveal(Gui::up_ok);
    }

    /// Sets the declared style of a container or span.
    pub fn set_style(&mut self, node: Node, style: Style)
        requires
            old(self).wf(),
            old(self).live(node),
            old(self).kind_of(node) != NodeKind::Text,
        ensures
            final(self).wf(),
            final(self).slot_count() == old(self).slot_count(),
            final(self).same_live(old(self)),
            forall|n: Node|
                old(self).live(n) ==> final(self).parent_of(n) == old(self).parent_of(n)
                    && final(self).children(n) == old(self).children(n) && final(self).kind_of(n)
                    == old(self).kind_of(n) && final(self).flags_of(n) == old(self).flags_of(n),
            forall|n: Node|
                old(self).live(n) && n != node ==> final(self).style_of(n) == old(self).style_of(n)
                    && final(self).computed_style_of(n) == old(self).computed_style_of(n)
                    && final(self).text_of(n) == old(self).text_of(n) && final(self).clickable(n)
                    == old(self).clickable(n),
            final(self).root_node() == old(self).root_node(),
            final(self).hovered() == old(self).hovered(),
            final(self).activated() == old(self).activated(),
            final(self).focused() == old(self).focused(),
            final(self).style_of(node) == style@,
            final(self).kind_of(node) == old(self).kind_of(node),
            final(self).children(node) == old(self).children(node),
            final(self).parent_of(node) == old(self).parent_of(node),
    {
        let ghost s0 = *self;
        self.nodes[node.index].data.style = style;
        proof {
            Gui::lemma_contents_frame(self, &s0);
            assert forall|n: Node| s0.live(n) && n != node implies n.idx() != node.idx() by {}
        }
    }

    /// Sets the text of a text node.
    pub fn set_text(&mut self, node: Node, text: String)
        requires
            old(self).wf(),
            old(self).live(node),
            old(self).kind_of(node) == NodeKind::Text,
        ensures
            final(self).wf(),
            final(self).slot_count() == old(self).slot_count(),
            final(self).same_live(old(self)),
            forall|n: Node|
                old(self).live(n) ==> final(self).parent_of(n) == old(self).parent_of(n)
                    && final(self).children(n) == old(self).children(n) && final(self).kind_of(n)
                    == old(self).kind_of(n) && final(self).flags_of(n) == old(self).flags_of(n),
            forall|n: Node|
                old(self).live(n) && n != node ==> final(self).style_of(n) == old(self).style_of(n)
                    && final(self).computed_style_of(n) == old(self).computed_style_of(n)
                    && final(self).text_of(n) == old(self).text_of(n) && final(self).clickable(n)
                    == old(self).clickable(n),
            final(self).root_node() == old(self).root_node(),
            final(self).hovered() == old(self).hovered(),
            final(self).activated() == old(self).activated(),
            final(self).focused() == old(self).focused(),
            final(self).text_of(node) == text@,
            final(self).kind_of(node) == old(self).kind_of(node),
            final(self).parent_of(node) == old(self).parent_of(node),
    {
        let ghost s0 = *self;
        self.nodes[node.index].data.text = text;
        proof {
            Gui::lemma_contents_frame(self, &s0);
            assert forall|n: Node| s0.live(n) && n != node implies n.idx() != node.idx() by {}
        }
    }

    /// Marks a button as having a click handler; the host keeps the handler
    /// and runs it for each event that the input entry points hand back.
    pub fn set_on_click(&mut self, node: Node)
        requires
            old(self).wf(),
            old(self).live(node),
            old(self).kind_of(node) == NodeKind::Button,
        ensures
            final(self).wf(),
            final(self).slot_count() == old(self).slot_count(),
            final(self).same_live(old(self)),
            forall|n: Node|
                old(self).live(n) ==> final(self).parent_of(n) == old(self).parent_of(n)
                    && final(self).children(n) == old(self).children(n) && final(self).kind_of(n)
                    == old(self).kind_of(n) && final(self).flags_of(n) == old(self).flags_of(n),
            forall|n: Node|
                old(self).live(n) && n != node ==> final(self).style_of(n) == old(self).style_of(n)
                    && final(self).computed_style_of(n) == old(self).computed_style_of(n)
                    && final(self).text_of(n) == old(self).text_of(n) && final(self).clickable(n)
                    == old(self).clickable(n),
            final(self).root_node() == old(self).root_node(),
            final(self).hovered() == old(self).hovered(),
            final(self).activated() == old(self).activated(),
            final(self).focused() == old(self).focused(),
            final(self).clickable(node),
            final(self).kind_of(node) == old(self).kind_of(node),
    {
        let ghost s0 = *self;
        self.nodes[node.index].data.has_on_click = true;
        proof {
            Gui::lemma_contents_frame(self, &s0);
            assert forall|n: Node| s0.live(n) && n != node implies n.idx() != node.idx() by {}
        }
    }

    /// The text of a live node.
    pub fn text(&self, node: Node) -> (r: &String)
        requires
            self.live(node),
        ensures
            r@ == self.text_of(node),
    {
        &self.nodes[node.index].data.text
    }

    /// The computed style of a live node.
    pub fn computed_style(&self, node: Node) -> (r: &Style)
        requires
            self.live(node),
        ensures
            r@ == self.computed_style_of(node),
    {
        &self.nodes[node.index].data.computed_style
    }

    /// Computes the style of `node` from its declared style and the computed
    /// style of its parent (of nothing, for a node without parent).
    pub fn style_node(&mut self, node: Node)
        requires
            old(self).wf(),
            old(self).live(node),
        ensures
            final(self).wf(),
            final(self).slot_count() == old(self).slot_count(),
            final(self).same_live(old(self)),
            final(self).computed_style_of(node) == cascade(
                old(self).style_of(node),
                match old(self).parent_of(node) {
                    Some(p) => old(self).computed_style_of(p),
                    None => Map::empty(),
                },
            ),
            forall|n: Node|
                old(self).live(n) && n != node ==> final(self).computed_style_of(n) == old(
                    self,
                ).computed_style_of(n),
            forall|n: Node|
                old(self).live(n) ==> final(self).style_of(n) == old(self).style_of(n)
                    && final(self).parent_of(n) == old(self).parent_of(n) && final(self).children(n)
                    == old(self).children(n) && final(self).kind_of(n) == old(self).kind_of(n)
                    && final(self).text_of(n) == old(self).text_of(n) && final(self).clickable(n)
                    == old(self).clickable(n) && final(self).flags_of(n) == old(self).flags_of(n),
            final(self).root_node() == old(self).root_node(),
            final(self).hovered() == old(self).hovered(),
            final(self).activated() == old(self).activated(),
            final(self).focused() == old(self).focused(),
            final(self).passive_focused() == old(self).passive_focused(),
            forall|n: Node| old(self).live(n) ==> final(self).depth_of(n) == old(self).depth_of(n),
    {
        let ghost s0 = *self;
        proof {
            self.lemma_step(node, node);
        }
        let computed = match self.nodes[node.index].data.parent {
            Some(p) => compute_style(&self.nodes[node.index].data.style, &self.nodes[p.index].data.computed_style),
            None => {
                let empty = Style::new();
                compute_style(&self.nodes[node.index].data.style, &empty)
            },
        };
        self.nodes[node.index].data.computed_style = computed;
        proof {
            Gui::lemma_contents_frame(self, &s0);
            assert forall|n: Node| s0.live(n) && n != node implies self.computed_style_of(n)
                == s0.computed_style_of(n) by {
                assert(n.idx() != node.idx());
            }
        }
    }

    /// The display of a live node under its computed style: its `display`
    /// property, else the default of its kind.
    pub fn display(&self, node: Node) -> (r: Display)
        requires
            self.live(node),
            self.computed_style_of(node).contains_key(display_key()) ==> display_named(
                self.computed_style_of(node)[display_key()],
            ) is Some,
        ensures
            r == (if self.computed_style_of(node).contains_key(display_key()) {
                display_named(self.computed_style_of(node)[display_key()]).unwrap()
            } else {
                default_display_of(self.kind_of(node))
            }),
    {
        let key = "display";
        proof {
            reveal_strlit("display");
            assert(key@ =~= display_key());
        }
        match self.nodes[node.index].data.computed_style.get(key) {
            Some(v) => match parse_display(v.as_str()) {
                Some(d) => d,
                None => self.nodes[node.index].data.kind.default_display(),
            },
            None => self.nodes[node.index].data.kind.default_display(),
        }
    }

    /// The cursor shown over a live node.
    pub fn cursor(&self, node: Node) -> (r: Cursor)
        requires
            self.live(node),
        ensures
            r == (if self.kind_of(node) == NodeKind::Button {
                Cursor::Pointer
            } else if self.kind_of(node) == NodeKind::Text {
                Cursor::Text
            } else {
                Cursor::Default
            }),
    {
        match self.nodes[node.index].data.kind {
            NodeKind::Button => Cursor::Pointer,
            NodeKind::Text => Cursor::Text,
            _ => Cursor::Default,
        }
    }

    /// The cursor shown over the hovered node, or the default one.
    pub fn get_cursor(&self) -> (r: Cursor)
        requires
            self.wf(),
        ensures
            self.hovered() is None ==> r == Cursor::Default,
            self.hovered() matches Some(h) ==> r == (if self.kind_of(h) == NodeKind::Button {
                Cursor::Pointer
            } else if self.kind_of(h) == NodeKind::Text {
                Cursor::Text
            } else {
                Cursor::Default
            }),
    {
        match self.hover {
            Some(h) => self.cursor(h),
            None => Cursor::Default,
        }
    }
}

/// Name of the property that sets a node's display.
pub open spec fn display_key() -> Seq<char> {
    seq!['d', 'i', 's', 'p', 'l', 'a', 'y']
}


impl Gui {
    /// Every link of a live node names a live node.
    proof fn lemma_neighbors(&self, n: Node)
        requires
            self.wf(),
            self.live(n),
        ensures
            self.d(n.idx()).parent matches Some(x) ==> self.live(x),
            self.d(n.idx()).first_child matches Some(x) ==> self.live(x),
            self.d(n.idx()).last_child matches Some(x) ==> self.live(x),
            self.d(n.idx()).next_sibling matches Some(x) ==> self.live(x),
            self.d(n.idx()).prev_sibling matches Some(x) ==> self.live(x),
    {
        self.lemma_in_parent(n);
        self.lemma_kids(n);
        let k = self.kids@[n.idx()];
        if k.len() > 0 {
            assert(self.d(k[0].idx()).parent == Some(n));
            assert(self.d(k[k.len() - 1].idx()).parent == Some(n));
        }
        if let Some(p) = self.d(n.idx()).parent {
            let kp = self.kids@[p.idx()];
            self.lemma_kids(p);
            let j = kp.index_of(n);
            assert(self.d(kp[j].idx()).parent == Some(p));
            if j > 0 {
                assert(self.d(kp[j - 1].idx()).parent == Some(p));
            }
            if j + 1 < kp.len() {
                assert(self.d(kp[j + 1].idx()).parent == Some(p));
            }
        }
    }

    /// Climbing from `n`, the first next sibling met; `None` at the top.
    pub closed spec fn up_next(&self, n: Node, fuel: nat) -> Option<Node>
        decreases fuel,
    {
        match self.d(n.idx()).parent {
            None => None,
            Some(p) => match self.d(n.idx()).next_sibling {
                Some(s) => Some(s),
                None => if fuel == 0 {
                    None
                } else {
                    self.up_next(p, (fuel - 1) as nat)
                },
            },
        }
    }

    /// The node after `n` in pre-order within its tree.
    pub closed spec fn pre_next(&self, n: Node) -> Option<Node> {
        match self.d(n.idx()).first_child {
            Some(f) => Some(f),
            None => self.up_next(n, self.depth@[n.idx()]),
        }
    }

    /// Descending from `n` by last children, at most `fuel` steps.
    pub closed spec fn deepest_last(&self, n: Node, fuel: nat) -> Node
        decreases fuel,
    {
        if fuel == 0 {
            n
        } else {
            match self.d(n.idx()).last_child {
                Some(l) => self.deepest_last(l, (fuel - 1) as nat),
                None => n,
            }
        }
    }

    /// The node before `n` in pre-order within its tree.
    pub closed spec fn pre_prev(&self, n: Node) -> Option<Node> {
        match self.d(n.idx()).parent {
            None => None,
            Some(p) => match self.d(n.idx()).prev_sibling {
                Some(s) => Some(self.deepest_last(s, self.nodes@.len())),
                None => Some(p),
            },
        }
    }

    /// The first node that `fuel` steps of `step` from `n` reach and that
    /// `focusable_only` lets through.
    pub closed spec fn find_from(&self, n: Node, forward: bool, focusable_only: bool, fuel: nat) -> Option<Node>
        decreases fuel,
    {
        if fuel == 0 {
            None
        } else {
            let m = if forward {
                self.pre_next(n)
            } else {
                self.pre_prev(n)
            };
            match m {
                None => None,
                Some(x) => if !focusable_only || self.d(x.idx()).kind == NodeKind::Button {
                    Some(x)
                } else {
                    self.find_from(x, forward, focusable_only, (fuel - 1) as nat)
                },
            }
        }
    }

    fn pre_order_next_step(&self, n: Node) -> (r: Option<Node>)
        requires
            self.wf(),
            self.live(n),
        ensures
            r == self.pre_next(n),
            r matches Some(m) ==> self.live(m),
    {
        proof {
            self.lemma_neighbors(n);
        }
        if let Some(f) = self.nodes[n.index].data.first_child {
            return Some(f);
        }
        let mut at = n;
        while self.nodes[at.index].data.parent.is_some() && self.nodes[at.index].data.next_sibling.is_none()
            invariant
                self.wf(),
                self.live(at),
                self.up_next(n, self.depth@[n.idx()]) == self.up_next(at, self.depth@[at.idx()]),
            decreases self.depth_of(at),
        {
            proof {
                self.lemma_step(at, at);
                self.lemma_neighbors(at);
            }
            at = self.nodes[at.index].data.parent.unwrap();
        }
        proof {
            self.lemma_neighbors(at);
        }
        if self.nodes[at.index].data.parent.is_none() {
            None
        } else {
            self.nodes[at.index].data.next_sibling
        }
    }

    fn pre_order_prev_step(&self, n: Node) -> (r: Option<Node>)
        requires
            self.wf(),
            self.live(n),
        ensures
            r == self.pre_prev(n),
            r matches Some(m) ==> self.live(m),
    {
        proof {
            self.lemma_neighbors(n);
        }
        match self.nodes[n.index].data.parent {
            None => None,
            Some(p) => match self.nodes[n.index].data.prev_sibling {
                None => Some(p),
                Some(s) => {
                    let mut at = s;
                    let mut fuel: usize = self.nodes.len();
                    while fuel > 0 && self.nodes[at.index].data.last_child.is_some()
                        invariant
                            self.wf(),
                            self.live(at),
                            fuel <= self.nodes@.len(),
                            self.deepest_last(s, self.nodes@.len() as nat) == self.deepest_last(at, fuel as nat),
                        decreases fuel,
                    {
                        proof {
                            self.lemma_neighbors(at);
                        }
                        at = self.nodes[at.index].data.last_child.unwrap();
                        fuel = fuel - 1;
                    }
                    Some(at)
                },
            },
        }
    }

    /// The first node after (`forward`) or before `n` in pre-order within its
    /// tree, skipping nodes that cannot take the focus when `focusable_only`.
    pub fn pre_order_find(&self, n: Node, forward: bool, focusable_only: bool) -> (r: Option<Node>)
        requires
            self.wf(),
            self.live(n),
        ensures
            r == self.find_from(n, forward, focusable_only, self.slot_count()),
            r matches Some(m) ==> self.live(m) && (focusable_only ==> self.kind_of(m) == NodeKind::Button),
    {
        let mut at = n;
        let mut fuel: usize = self.nodes.len();
        while fuel > 0
            invariant
                self.wf(),
                self.live(at),
                fuel <= self.nodes@.len(),
                self.find_from(n, forward, focusable_only, self.nodes@.len() as nat) == self.find_from(at, forward, focusable_only, fuel as nat),
            decreases fuel,
        {
            let m = if forward {
                self.pre_order_next_step(at)
            } else {
                self.pre_order_prev_step(at)
            };
            match m {
                None => {
                    return None;
                },
                Some(x) => {
                    if !focusable_only || self.nodes[x.index].data.kind.takes_focus() {
                        return Some(x);
                    }
                    at = x;
                },
            }
            fuel = fuel - 1;
        }
        None
    }

    /// The node after `node` in pre-order within its tree.
    pub fn next_node_pre_order(&self, node: Node) -> (r: Option<Node>)
        requires
            self.wf(),
            self.live(node),
        ensures
            r == self.pre_next(node),
    {
        self.pre_order_next_step(node)
    }

    /// The node before `node` in pre-order within its tree.
    pub fn prev_node_pre_order(&self, node: Node) -> (r: Option<Node>)
        requires
            self.wf(),
            self.live(node),
        ensures
            r == self.pre_prev(node),
    {
        self.pre_order_prev_step(node)
    }
}


impl Gui {
    /// The session state is as in `o`, but for the hovered, active and focused
    /// nodes, and the flags that mirror them.
    spec fn same_but_pointer(&self, o: &Gui) -> bool {
        &&& self.same_links(o)
        &&& self.root == o.root
        &&& forall|i: int|
            0 <= i < self.nodes@.len() ==> {
                &&& (#[trigger] self.nodes@[i]).data.kind == o.nodes@[i].data.kind
                &&& self.nodes@[i].data.style == o.nodes@[i].data.style
                &&& self.nodes@[i].data.computed_style == o.nodes@[i].data.computed_style
                &&& self.nodes@[i].data.text == o.nodes@[i].data.text
                &&& self.nodes@[i].data.has_on_click == o.nodes@[i].data.has_on_click
            }
    }

    /// Makes `new` the hovered node, moving the hover flag with it.
    fn set_hovered(&mut self, new: Option<Node>)
        requires
            old(self).wf(),
            new matches Some(h) ==> old(self).live(h),
        ensures
            final(self).wf(),
            final(self).slot_count() == old(self).slot_count(),
            final(self).same_but_pointer(old(self)),
            final(self).same_live(old(self)),
            final(self).hover == new,
            final(self).active == old(self).active,
            final(self).focus == old(self).focus,
            final(self).passive_focus == old(self).passive_focus,
    {
        let ghost s0 = *self;
        if let Some(h) = self.hover {
            self.nodes[h.index].data.hover = false;
        }
        if let Some(h) = new {
            self.nodes[h.index].data.hover = true;
        }
        self.hover = new;
        proof {
            assert forall|z: Node| #[trigger] self.live(z) == s0.live(z) by {}
            assert forall|j: int| #[trigger] self.used(j) implies self.links_ok(j) by {
                assert(s0.used(j));
                Gui::lemma_links_frame(self, &s0, j);
                assert(s0.links_ok(j));
                reveal(Gui::flags_ok);
            }
            s0.lemma_links(s0.root);
            reveal(Gui::up_ok);
        }
    }

    /// Makes `new` the active node, moving the active flag with it.
    fn set_activated(&mut self, new: Option<Node>)
        requires
            old(self).wf(),
            new matches Some(h) ==> old(self).live(h),
        ensures
            final(self).wf(),
            final(self).slot_count() == old(self).slot_count(),
            final(self).same_but_pointer(old(self)),
            final(self).same_live(old(self)),
            final(self).active == new,
            final(self).hover == old(self).hover,
            final(self).focus == old(self).focus,
            final(self).passive_focus == old(self).passive_focus,
    {
        let ghost s0 = *self;
        if let Some(h) = self.active {
            self.nodes[h.index].data.active = false;
        }
        if let Some(h) = new {
            self.nodes[h.index].data.active = true;
        }
        self.active = new;
        proof {
            assert forall|z: Node| #[trigger] self.live(z) == s0.live(z) by {}
            assert forall|j: int| #[trigger] self.used(j) implies self.links_ok(j) by {
                assert(s0.used(j));
                Gui::lemma_links_frame(self, &s0, j);
                assert(s0.links_ok(j));
                reveal(Gui::flags_ok);
            }
            s0.lemma_links(s0.root);
            reveal(Gui::up_ok);
        }
    }

    /// Makes `new` the focused node, moving the focus flag with it.
    fn set_focused(&mut self, new: Option<Node>)
        requires
            old(self).wf(),
            new matches Some(h) ==> old(self).live(h),
        ensures
            final(self).wf(),
            final(self).slot_count() == old(self).slot_count(),
            final(self).same_but_pointer(old(self)),
            final(self).same_live(old(self)),
            final(self).focus == new,
            final(self).hover == old(self).hover,
            final(self).active == old(self).active,
            final(self).passive_focus == old(self).passive_focus,
    {
        let ghost s0 = *self;
        if let Some(h) = self.focus {
            self.nodes[h.index].data.focus = false;
        }
        if let Some(h) = new {
            self.nodes[h.index].data.focus = true;
        }
        self.focus = new;
        proof {
            assert forall|z: Node| #[trigger] self.live(z) == s0.live(z) by {}
            assert forall|j: int| #[trigger] self.used(j) implies self.links_ok(j) by {
                assert(s0.used(j));
                Gui::lemma_links_frame(self, &s0, j);
                assert(s0.links_ok(j));
                reveal(Gui::flags_ok);
            }
            s0.lemma_links(s0.root);
            reveal(Gui::up_ok);
        }
    }

    /// The pointer moved; `hit` is the node that the host's hit test found
    /// under it. The hover moves to that node.
    pub fn on_mouse_move(&mut self, hit: Option<Node>)
        requires
            old(self).wf(),
            hit matches Some(h) ==> old(self).live(h),
        ensures
            final(self).wf(),
            final(self).slot_count() == old(self).slot_count(),
            final(self).same_live(old(self)),
            final(self).hovered() == hit,
            final(self).activated() == old(self).activated(),
            final(self).focused() == old(self).focused(),
            final(self).root_node() == old(self).root_node(),
            forall|n: Node| old(self).live(n) ==> final(self).kind_of(n) == old(self).kind_of(n) && final(self).clickable(n) == old(self).clickable(n),
    {
        if self.hover != hit {
            self.set_hovered(hit);
        }
    }

    /// A button went down. Focus moves to the hovered node if it takes the
    /// focus, and is cleared otherwise; the hovered node becomes active.
    /// `passive` is the node and text offset that the host's permissive hit
    /// test found: the seed of the tab order.
    pub fn on_mouse_down(&mut self, passive: Option<(Node, usize)>)
        requires
            old(self).wf(),
            passive matches Some(pf) ==> old(self).live(pf.0),
        ensures
            final(self).wf(),
            final(self).slot_count() == old(self).slot_count(),
            final(self).same_live(old(self)),
            final(self).hovered() == old(self).hovered(),
            final(self).activated() == old(self).hovered(),
            final(self).focused() == (match old(self).hovered() {
                Some(h) => if old(self).kind_of(h) == NodeKind::Button {
                    Some(h)
                } else {
                    None
                },
                None => None,
            }),
            final(self).passive_focused() == passive,
            final(self).root_node() == old(self).root_node(),
            forall|n: Node| old(self).live(n) ==> final(self).kind_of(n) == old(self).kind_of(n) && final(self).clickable(n) == old(self).clickable(n),
    {
        let ghost s0 = *self;
        let new_focus = match self.hover {
            Some(h) => if self.nodes[h.index].data.kind.takes_focus() {
                Some(h)
            } else {
                None
            },
            None => None,
        };
        self.set_focused(new_focus);
        let ghost s1 = *self;
        let hover = self.hover;
        self.set_activated(hover);
        let ghost s2 = *self;
        self.passive_focus = passive;
        proof {
            assert forall|z: Node| #[trigger] self.live(z) == s0.live(z) by {
                assert(s1.live(z) == s0.live(z));
                assert(s2.live(z) == s1.live(z));
            }
            assert(self.state_ok());
            assert forall|j: int| #[trigger] self.used(j) implies self.links_ok(j) by {
                assert(s2.used(j));
                assert(s2.links_ok(j));
                Gui::lemma_links_frame(self, &s2, j);
                reveal(Gui::flags_ok);
            }
            assert forall|n: Node| s0.live(n) implies self.kind_of(n) == s0.kind_of(n) && self.clickable(n) == s0.clickable(n) by {
                assert(s1.kind_of(n) == s0.kind_of(n));
                assert(s2.kind_of(n) == s1.kind_of(n));
                assert(s1.clickable(n) == s0.clickable(n));
                assert(s2.clickable(n) == s1.clickable(n));
            }
        }
    }

    /// The button went up. When the pointer is still over the node it went
    /// down on, and that node has a click handler, the event for that handler
    /// is returned. No node stays active.
    pub fn on_mouse_up(&mut self) -> (r: Option<Event>)
        requires
            old(self).wf(),
        ensures
            final(self).wf(),
            final(self).slot_count() == old(self).slot_count(),
            final(self).same_live(old(self)),
            r == (match old(self).hovered() {
                Some(h) => if old(self).activated() == Some(h) && old(self).clickable(h) {
                    Some(Event { target: h })
                } else {
                    None
                },
                None => None,
            }),
            final(self).activated() is None,
            final(self).hovered() == old(self).hovered(),
            final(self).focused() == old(self).focused(),
            final(self).root_node() == old(self).root_node(),
            forall|n: Node| old(self).live(n) ==> final(self).kind_of(n) == old(self).kind_of(n) && final(self).clickable(n) == old(self).clickable(n),
    {
        let mut event: Option<Event> = None;
        if let Some(h) = self.hover {
            if self.active == Some(h) && self.nodes[h.index].data.has_on_click {
                event = Some(Event { target: h });
            }
        }
        self.set_activated(None);
        event
    }

    /// A character was typed. Enter hands back the click event of the focused
    /// node, if it has a handler. Tab moves the focus to the next node in
    /// pre-order that takes it (the previous one with `shift_down`), starting
    /// from the focused node, else the last clicked node, else the root; when
    /// there is none, no node keeps the focus.
    pub fn on_char(&mut self, cp: char, shift_down: bool) -> (r: Option<Event>)
        requires
            old(self).wf(),
        ensures
            final(self).wf(),
            final(self).slot_count() == old(self).slot_count(),
            final(self).same_live(old(self)),
            final(self).hovered() == old(self).hovered(),
            final(self).activated() == old(self).activated(),
            final(self).root_node() == old(self).root_node(),
            cp == '\r' ==> r == (match old(self).focused() {
                Some(f) => if old(self).clickable(f) {
                    Some(Event { target: f })
                } else {
                    None
                },
                None => None,
            }),
            cp != '\r' ==> r is None,
            cp == '\t' ==> final(self).focused() == old(self).find_from(
                match old(self).focused() {
                    Some(f) => f,
                    None => match old(self).passive_focused() {
                        Some(pf) => pf.0,
                        None => old(self).root_node(),
                    },
                },
                !shift_down,
                true,
                old(self).slot_count(),
            ),
            cp != '\t' ==> final(self).focused() == old(self).focused(),
            final(self).focused() matches Some(f) ==> final(self).kind_of(f) == NodeKind::Button || final(self).focused() == old(self).focused(),
            forall|n: Node| old(self).live(n) ==> final(self).kind_of(n) == old(self).kind_of(n) && final(self).clickable(n) == old(self).clickable(n),
    {
        if cp == '\r' {
            if let Some(f) = self.focus {
                if self.nodes[f.index].data.has_on_click {
                    return Some(Event { target: f });
                }
            }
            return None;
        }
        if cp == '\t' {
            let start = match self.focus {
                Some(f) => f,
                None => match self.passive_focus {
                    Some(pf) => pf.0,
                    None => self.root,
                },
            };
            let next = self.pre_order_find(start, !shift_down, true);
            self.set_focused(next);
        }
        None
    }
}


/// The tree has no cycle: in a wf session, the parent of a node never lies in
/// the node's own subtree.
pub proof fn lemma_tree_acyclic(gui: &Gui, n: Node)
    requires
        gui.wf(),
        gui.live(n),
        gui.parent_of(n) is Some,
    ensures
        !gui.in_subtree(gui.parent_of(n).unwrap(), n),
        gui.depth_of(gui.parent_of(n).unwrap()) < gui.depth_of(n),
{
    let p = gui.parent_of(n).unwrap();
    gui.lemma_step(n, n);
    if gui.in_subtree(p, n) {
        gui.lemma_depth_le(p, n);
    }
}

/// Parent and sibling links agree in a wf session: a node is among its
/// parent's children, and its siblings are its neighbours there, with the
/// same parent.
pub proof fn lemma_links_consistent(gui: &Gui, n: Node)
    requires
        gui.wf(),
        gui.live(n),
    ensures
        gui.parent_of(n) matches Some(p) ==> gui.live(p) && gui.children(p).contains(n),
        forall|j: int|
            0 <= j < gui.children(n).len() ==> gui.live(#[trigger] gui.children(n)[j])
                && gui.parent_of(gui.children(n)[j]) == Some(n),
        gui.children(n).no_duplicates(),
        gui.next_of(n) matches Some(m) ==> gui.live(m) && gui.prev_of(m) == Some(n)
            && gui.parent_of(m) == gui.parent_of(n),
{
    gui.lemma_in_parent(n);
    gui.lemma_kids(n);
    assert forall|j: int| 0 <= j < gui.children(n).len() implies gui.live(#[trigger] gui.children(n)[j])
        && gui.parent_of(gui.children(n)[j]) == Some(n) by {
        assert(gui.d(gui.kids@[n.idx()][j].idx()).parent == Some(n));
    }
    gui.lemma_sibling(n);
    gui.lemma_neighbors(n);
    if let Some(m) = gui.next_of(n) {
        let p = gui.parent_of(n).unwrap();
        let k = gui.kids@[p.idx()];
        gui.lemma_kids(p);
        let j = k.index_of(n);
        assert(k[j] == n);
        assert(gui.d(k[j + 1].idx()).parent == Some(p));
        gui.lemma_sibling(m);
        lemma_index_of_unique(k, j + 1);
    }
}

/// The session names only live nodes as hovered, active, focused or last
/// clicked node; freeing a node therefore clears each of these that named it.
/// A live node carries the hover, active or focus flag exactly when the
/// session names it as hovered, active or focused node.
pub proof fn lemma_session_refs_live(gui: &Gui)
    requires
        gui.wf(),
    ensures
        gui.live(gui.root_node()),
        gui.hovered() matches Some(h) ==> gui.live(h),
        gui.activated() matches Some(a) ==> gui.live(a),
        gui.focused() matches Some(f) ==> gui.live(f),
        gui.passive_focused() matches Some(pf) ==> gui.live(pf.0),
        forall|n: Node|
            gui.live(n) ==> (gui.flags_of(n).0 <==> gui.hovered() == Some(n)) && (gui.flags_of(n).1
                <==> gui.activated() == Some(n)) && (gui.flags_of(n).2 <==> gui.focused() == Some(n)),
{
    assert forall|n: Node| gui.live(n) implies (gui.flags_of(n).0 <==> gui.hovered() == Some(n))
        && (gui.flags_of(n).1 <==> gui.activated() == Some(n)) && (gui.flags_of(n).2
        <==> gui.focused() == Some(n)) by {
        gui.lemma_links(n);
        reveal(Gui::flags_ok);
    }
}


impl Gui {
    /// Two wf states with the same live nodes that differ in the parent of `c`
    /// alone agree on the ancestors of every node outside the subtree of `c`.
    proof fn lemma_moved_frame(s1: &Gui, s2: &Gui, c: Node, x: Node)
        requires
            s1.wf(),
            s2.wf(),
            s1.live(x),
            s2.same_live(s1),
            forall|z: Node| s1.live(z) && z != c ==> s2.parent_of(z) == s1.parent_of(z),
            !s1.in_subtree(x, c),
        ensures
            forall|y: Node| s2.in_subtree(x, y) == s1.in_subtree(x, y),
    {
        assert forall|z: Node| s1.live(z) <==> s2.live(z) by {}
        Gui::lemma_subtree_frame(s1, s2, c, x);
    }

    /// Puts `new_child` in the place of `old_child` among the children of
    /// `parent`; `old_child` is taken out, and freed with its subtree unless
    /// `keep_alive`.
    pub fn replace_child(&mut self, parent: Node, old_child: Node, new_child: Node, keep_alive: bool)
        requires
            old(self).wf(),
            old(self).live(old_child),
            old(self).parent_of(old_child) == Some(parent),
            old(self).live(new_child),
            new_child != old(self).root_node(),
            new_child != old_child,
            !old(self).in_subtree(parent, new_child),
        ensures
            final(self).wf(),
            final(self).slot_count() == old(self).slot_count(),
            final(self).root_node() == old(self).root_node(),
            final(self).live(new_child),
            final(self).parent_of(new_child) == Some(parent),
            keep_alive ==> final(self).same_live(old(self)) && final(self).parent_of(old_child) is None,
            !keep_alive ==> !final(self).live(old_child),
            final(self).children(parent) == without(old(self).children(parent), new_child).update(
                without(old(self).children(parent), new_child).index_of(old_child),
                new_child,
            ),
    {
        let ghost s0 = *self;
        proof {
            s0.lemma_in_parent(old_child);
            s0.lemma_kids(parent);
            lemma_replace_seq(s0.children(parent), old_child, new_child);
        }
        self.insert_after_child(parent, Some(old_child), new_child);
        let ghost s1 = *self;
        proof {
            assert(s1.parent_of(old_child) == Some(parent));
            s1.lemma_step(new_child, old_child);
            s1.lemma_step(old_child, old_child);
            if s1.in_subtree(parent, new_child) {
                s1.lemma_depth_le(parent, new_child);
            }
            s1.lemma_step(new_child, new_child);
        }
        self.remove_child(parent, old_child, keep_alive);
        proof {
            if s1.in_subtree(new_child, old_child) {
                s1.lemma_step(new_child, old_child);
                s1.lemma_step(parent, old_child);
                s1.lemma_depth_le(parent, old_child);
            }
            s1.lemma_step(old_child, old_child);
        }
    }

    /// Swaps the places of `a` and `b` in the tree: each takes the other's
    /// parent and position. A node without parent gives the other node's
    /// place up and stands alone.
    pub fn swap_nodes(&mut self, a: Node, b: Node)
        requires
            old(self).wf(),
            old(self).live(a),
            old(self).live(b),
            a != old(self).root_node(),
            b != old(self).root_node(),
            old(self).parent_of(a) matches Some(pa) ==> !old(self).in_subtree(pa, b),
            old(self).parent_of(b) matches Some(pb) ==> !old(self).in_subtree(pb, a),
        ensures
            final(self).wf(),
            final(self).slot_count() == old(self).slot_count(),
            final(self).same_live(old(self)),
            final(self).root_node() == old(self).root_node(),
            a != b ==> final(self).parent_of(a) == old(self).parent_of(b),
            a != b ==> final(self).parent_of(b) == old(self).parent_of(a),
            old(self).parent_of(a) is Some && old(self).parent_of(b) is Some && old(self).parent_of(a)
                != old(self).parent_of(b) ==> {
                let pa = old(self).parent_of(a).unwrap();
                let pb = old(self).parent_of(b).unwrap();
                &&& final(self).children(pa) == old(self).children(pa).update(
                    old(self).children(pa).index_of(a),
                    b,
                )
                &&& final(self).children(pb) == old(self).children(pb).update(
                    old(self).children(pb).index_of(b),
                    a,
                )
            },
    {
        if a == b {
            return;
        }
        let ghost s0 = *self;
        let pa = self.nodes[a.index].data.parent;
        let ra = self.nodes[a.index].data.prev_sibling;
        let pb = self.nodes[b.index].data.parent;
        let rb = self.nodes[b.index].data.prev_sibling;
        proof {
            s0.lemma_neighbors(a);
            s0.lemma_neighbors(b);
            s0.lemma_sibling(a);
            s0.lemma_sibling(b);
        }
        match (pa, pb) {
            (Some(pa), Some(pb)) => {
                proof {
                    Gui::lemma_prev_parent(&s0, a);
                    Gui::lemma_prev_parent(&s0, b);
                }
                self.insert_after_child(pa, ra, b);
                let ghost s1 = *self;
                proof {
                    s0.lemma_step(b, b);
                    if s0.in_subtree(pb, b) {
                        s0.lemma_depth_le(pb, b);
                    }
                    assert(s1.in_subtree(pb, a) == s0.in_subtree(pb, a));
                    if let Some(r) = rb {
                        if r != b {
                            assert(s1.parent_of(r) == s0.parent_of(r));
                        }
                    }
                    assert(s1.live(a));
                    assert(s1.parent_of(a) == s0.parent_of(a) || a == b);
                }
                proof {
                    if ra == Some(b) {
                        assert(s1.parent_of(b) == Some(pa));
                    }
                    assert(s1.parent_of(b) == Some(pa));
                    if rb == Some(a) {
                        assert(pa == pb);
                    }
                }
                self.insert_after_child(pb, rb, a);
                proof {
                    assert(self.parent_of(b) == s1.parent_of(b));
                    assert(self.parent_of(a) == Some(pb));
                    if pa != pb {
                        let ca = s0.children(pa);
                        let cb = s0.children(pb);
                        s0.lemma_in_parent(a);
                        s0.lemma_in_parent(b);
                        s0.lemma_kids(pa);
                        s0.lemma_kids(pb);
                        let ia = ca.index_of(a);
                        let ib = cb.index_of(b);
                        assert(ca[ia] == a);
                        assert(cb[ib] == b);
                        assert(!ca.contains(b)) by {
                            if ca.contains(b) {
                                let t = ca.index_of(b);
                                assert(s0.d(ca[t].idx()).parent == Some(pa));
                            }
                        }
                        assert(!cb.contains(a)) by {
                            if cb.contains(a) {
                                let t = cb.index_of(a);
                                assert(s0.d(cb[t].idx()).parent == Some(pb));
                            }
                        }
                        lemma_swap_seq(ca, ia, b);
                        lemma_swap_seq(cb, ib, a);
                        assert(s1.children(pa) == ca.insert(ia, b));
                        assert(s1.children(pb) == cb.remove(ib));
                    }
                    assert forall|n: Node| #[trigger] self.live(n) == s0.live(n) by {
                        assert(s1.live(n) == s0.live(n));
                    }
                }
            },
            (Some(pa), None) => {
                self.replace_child(pa, a, b, true);
            },
            (None, Some(pb)) => {
                self.replace_child(pb, b, a, true);
            },
            (None, None) => {},
        }
    }

    /// The sibling before a node has the node's parent.
    proof fn lemma_prev_parent(s: &Gui, n: Node)
        requires
            s.wf(),
            s.live(n),
        ensures
            s.d(n.idx()).prev_sibling matches Some(r) ==> s.live(r) && s.parent_of(r) == s.parent_of(n) && r != n,
    {
        s.lemma_neighbors(n);
        s.lemma_sibling(n);
        s.lemma_in_parent(n);
        if let Some(p) = s.parent_of(n) {
            let k = s.kids@[p.idx()];
            s.lemma_kids(p);
            let j = k.index_of(n);
            assert(k[j] == n);
            if j > 0 {
                assert(s.d(k[j - 1].idx()).parent == Some(p));
                assert(k[j - 1] != k[j]);
            }
        }
    }
}


impl Gui {
    /// Freeing a subtree leaves the ancestors of every survivor as they were.
    proof fn lemma_survivor_frame(s1: &Gui, s2: &Gui, c: Node, x: Node)
        requires
            s1.wf(),
            s2.wf(),
            s1.live(x),
            !s1.in_subtree(x, c),
            forall|z: Node|
                s1.live(z) && !s1.in_subtree(z, c) ==> s2.live(z) && s2.parent_of(z) == s1.parent_of(z),
        ensures
            forall|y: Node| s2.in_subtree(x, y) == s1.in_subtree(x, y),
        decreases s1.depth_of(x),
    {
        s1.lemma_step(x, c);
        s2.lemma_step(x, c);
        if let Some(q) = s1.parent_of(x) {
            Gui::lemma_survivor_frame(s1, s2, c, q);
        }
        assert forall|y: Node| s2.in_subtree(x, y) == s1.in_subtree(x, y) by {
            s1.lemma_step(x, y);
            s2.lemma_step(x, y);
        }
    }

    /// Makes `children` the children of `this`, in order. Each is first taken
    /// from where it stood; the former children that are not among them are
    /// freed with their subtrees.
    #[verifier::spinoff_prover]
    #[verifier::rlimit(50)]
    pub fn set_children(&mut self, this: Node, children: &Vec<Node>)
        requires
            old(self).wf(),
            old(self).live(this),
            children@.no_duplicates(),
            forall|j: int|
                0 <= j < children@.len() ==> old(self).live(#[trigger] children@[j])
                    && children@[j] != old(self).root_node() && !old(self).in_subtree(
                    this,
                    children@[j],
                ),
        ensures
            final(self).wf(),
            final(self).slot_count() == old(self).slot_count(),
            final(self).live(this),
            final(self).children(this) == children@,
            forall|j: int|
                0 <= j < children@.len() ==> final(self).parent_of(#[trigger] children@[j]) == Some(
                    this,
                ),
            forall|n: Node|
                old(self).children(this).contains(n) && !children@.contains(n)
                    ==> !final(self).live(n),
            final(self).root_node() == old(self).root_node(),
    {
        let ghost s0 = *self;
        let mut olds: Vec<Node> = Vec::new();
        proof {
            s0.lemma_kids(this);
            assert forall|t: int| 0 <= t < s0.kids@[this.idx()].len() implies !s0.in_subtree(this, #[trigger] s0.kids@[this.idx()][t]) by {
                let o = s0.kids@[this.idx()][t];
                assert(s0.d(o.idx()).parent == Some(this));
                s0.lemma_step(o, o);
                if s0.in_subtree(this, o) {
                    s0.lemma_depth_le(this, o);
                }
            }
        }
        while self.nodes[this.index].data.first_child.is_some()
            invariant
                self.wf(),
                self.live(this),
                self.root == s0.root,
                self.slot_count() == s0.slot_count(),
                olds@ + self.children(this) == s0.children(this),
                forall|j: int|
                    0 <= j < children@.len() ==> self.live(#[trigger] children@[j])
                        && !self.in_subtree(this, children@[j]),
                forall|t: int|
                    0 <= t < olds@.len() ==> self.live(#[trigger] olds@[t]) && self.parent_of(olds@[t])
                        is None && olds@[t] != self.root && !self.in_subtree(this, olds@[t]),
                forall|t: int|
                    0 <= t < self.children(this).len() ==> !self.in_subtree(this, #[trigger] self.children(this)[t]),
                forall|u: int, v: int| 0 <= u < v < olds@.len() ==> olds@[u] != olds@[v],
            decreases self.children(this).len(),
        {
            let f = self.nodes[this.index].data.first_child.unwrap();
            let ghost s1 = *self;
            proof {
                s1.lemma_kids(this);
                assert(s1.d(s1.kids@[this.idx()][0].idx()).parent == Some(this));
                s1.lemma_links(s1.root);
                s1.lemma_step(s1.root, s1.root);
            }
            self.detach_if_attached(f);
            proof {
                let k = s1.kids@[this.idx()];
                lemma_index_of_unique(k, 0);
                assert(self.children(this) == k.remove(0));
                assert forall|t: int| 0 <= t < self.children(this).len() implies !self.in_subtree(this, #[trigger] self.children(this)[t]) by {
                    assert(self.children(this)[t] == k[t + 1]);
                }
            }
            proof {
                assert forall|u: int| 0 <= u < olds@.len() implies olds@[u] != f by {
                    assert(s1.parent_of(olds@[u]) is None);
                }
            }
            olds.push(f);
            proof {
                assert(olds@ + self.children(this) =~= s0.children(this));
                assert forall|t: int|
                    0 <= t < olds@.len() implies self.live(#[trigger] olds@[t]) && self.parent_of(olds@[t])
                        is None && olds@[t] != self.root && !self.in_subtree(this, olds@[t]) by {
                    if t + 1 < olds@.len() {
                        assert(olds@[t] != f);
                    }
                }
            }
        }
        proof {
            self.lemma_kids(this);
        }
        let mut i: usize = 0;
        while i < children.len()
            invariant
                self.wf(),
                self.live(this),
                self.root == s0.root,
                self.slot_count() == s0.slot_count(),
                olds@ == s0.children(this),
                i <= children@.len(),
                children@.no_duplicates(),
                self.children(this) == children@.take(i as int),
                forall|j: int|
                    0 <= j < children@.len() ==> self.live(#[trigger] children@[j])
                        && !self.in_subtree(this, children@[j]) && children@[j] != self.root,
                forall|t: int|
                    0 <= t < olds@.len() ==> self.live(#[trigger] olds@[t]) && olds@[t] != self.root
                        && !self.in_subtree(this, olds@[t]) && (!children@.contains(olds@[t])
                        ==> self.parent_of(olds@[t]) is None),
                forall|u: int, v: int| 0 <= u < v < olds@.len() ==> olds@[u] != olds@[v],
            decreases children@.len() - i,
        {
            let ch = children[i];
            let last = self.nodes[this.index].data.last_child;
            let ghost s1 = *self;
            proof {
                s1.lemma_kids(this);
                let k = s1.kids@[this.idx()];
                assert(!k.contains(ch)) by {
                    if k.contains(ch) {
                        let t = k.index_of(ch);
                        assert(children@.take(i as int)[t] == ch);
                        assert(children@[t] == children@[i as int]);
                    }
                }
                if k.len() > 0 {
                    assert(s1.d(k[k.len() - 1].idx()).parent == Some(this));
                    lemma_index_of_unique(k, k.len() - 1);
                }
            }
            self.insert_after_child(this, last, ch);
            proof {
                let k = s1.kids@[this.idx()];
                assert(without(k, ch) == k);
                assert(self.children(this) =~= children@.take(i + 1));
                assert forall|j: int|
                    0 <= j < children@.len() implies self.live(#[trigger] children@[j])
                        && !self.in_subtree(this, children@[j]) && children@[j] != self.root by {
                    assert(s1.live(children@[j]));
                }
                assert forall|t: int|
                    0 <= t < olds@.len() implies self.live(#[trigger] olds@[t]) && olds@[t] != self.root
                        && !self.in_subtree(this, olds@[t]) && (!children@.contains(olds@[t])
                        ==> self.parent_of(olds@[t]) is None) by {
                    assert(s1.live(olds@[t]));
                    if !children@.contains(olds@[t]) {
                        assert(olds@[t] != ch);
                    }
                }
            }
            i = i + 1;
        }
        proof {
            assert(children@.take(children@.len() as int) =~= children@);
        }
        let mut t: usize = 0;
        while t < olds.len()
            invariant
                self.wf(),
                self.live(this),
                self.root == s0.root,
                self.slot_count() == s0.slot_count(),
                olds@ == s0.children(this),
                forall|u: int|
                    0 <= u < t && !children@.contains(#[trigger] olds@[u]) ==> !self.live(olds@[u]),
                t <= olds@.len(),
                self.children(this) == children@,
                forall|u: int|
                    t <= u < olds@.len() && !children@.contains(#[trigger] olds@[u]) ==> self.live(olds@[u])
                        && olds@[u] != self.root && self.parent_of(olds@[u]) is None
                        && !self.in_subtree(this, olds@[u]),
                forall|u: int, v: int| 0 <= u < v < olds@.len() ==> olds@[u] != olds@[v],
            decreases olds@.len() - t,
        {
            let o = olds[t];
            let mut listed = false;
            let mut j: usize = 0;
            while j < children.len()
                invariant
                    j <= children@.len(),
                    listed == children@.take(j as int).contains(o),
                decreases children@.len() - j,
            {
                if children[j] == o {
                    listed = true;
                }
                proof {
                    let a = children@.take(j as int);
                    let b = children@.take(j + 1);
                    assert(b =~= a.push(children@[j as int]));
                    if children@[j as int] == o {
                        assert(b[j as int] == o);
                    }
                    if a.contains(o) {
                        let w = choose|w: int| 0 <= w < a.len() && a[w] == o;
                        assert(b[w] == o);
                    }
                    if b.contains(o) {
                        let w = choose|w: int| 0 <= w < b.len() && b[w] == o;
                        if w < j {
                            assert(a[w] == o);
                        }
                    }
                }
                j = j + 1;
            }
            proof {
                assert(children@.take(children@.len() as int) =~= children@);
            }
            if !listed {
                let ghost s1 = *self;
                self.free_subtree(o);
                proof {
                    Gui::lemma_survivor_frame(&s1, self, o, this);
                    s1.lemma_step(o, o);
                    s1.lemma_step(this, o);
                    assert forall|u: int|
                        t + 1 <= u < olds@.len() && !children@.contains(#[trigger] olds@[u]) implies self.live(olds@[u])
                            && olds@[u] != self.root && self.parent_of(olds@[u]) is None
                            && !self.in_subtree(this, olds@[u]) by {
                        s1.lemma_step(olds@[u], o);
                        Gui::lemma_survivor_frame(&s1, self, o, olds@[u]);
                    }
                }
            }
            t = t + 1;
        }
        proof {
            self.lemma_kids(this);
            assert forall|q: int| 0 <= q < children@.len() implies self.parent_of(#[trigger] children@[q]) == Some(this) by {
                assert(self.d(self.kids@[this.idx()][q].idx()).parent == Some(this));
            }
        }
    }
}


impl Gui {
    /// Climbing from `n`, the first previous sibling met; `None` at the top.
    pub closed spec fn up_prev(&self, n: Node, fuel: nat) -> Option<Node>
        decreases fuel,
    {
        match self.d(n.idx()).parent {
            None => None,
            Some(p) => match self.d(n.idx()).prev_sibling {
                Some(s) => Some(s),
                None => if fuel == 0 {
                    None
                } else {
                    self.up_prev(p, (fuel - 1) as nat)
                },
            },
        }
    }

    /// Descending from `n` by first children, at most `fuel` steps.
    pub closed spec fn deepest_first(&self, n: Node, fuel: nat) -> Node
        decreases fuel,
    {
        if fuel == 0 {
            n
        } else {
            match self.d(n.idx()).first_child {
                Some(f) => self.deepest_first(f, (fuel - 1) as nat),
                None => n,
            }
        }
    }

    /// The node after `n` in post-order within its tree.
    pub closed spec fn post_next(&self, n: Node) -> Option<Node> {
        match self.d(n.idx()).parent {
            None => None,
            Some(p) => match self.d(n.idx()).next_sibling {
                Some(s) => Some(self.deepest_first(s, self.nodes@.len())),
                None => Some(p),
            },
        }
    }

    /// The node before `n` in post-order within its tree.
    pub closed spec fn post_prev(&self, n: Node) -> Option<Node> {
        match self.d(n.idx()).last_child {
            Some(l) => Some(l),
            None => self.up_prev(n, self.depth@[n.idx()]),
        }
    }

    /// The node after `node` in post-order within its tree.
    pub fn next_node_post_order(&self, node: Node) -> (r: Option<Node>)
        requires
            self.wf(),
            self.live(node),
        ensures
            r == self.post_next(node),
            r matches Some(m) ==> self.live(m),
    {
        proof {
            self.lemma_neighbors(node);
        }
        match self.nodes[node.index].data.parent {
            None => None,
            Some(p) => match self.nodes[node.index].data.next_sibling {
                None => Some(p),
                Some(s) => {
                    let mut at = s;
                    let mut fuel: usize = self.nodes.len();
                    while fuel > 0 && self.nodes[at.index].data.first_child.is_some()
                        invariant
                            self.wf(),
                            self.live(at),
                            fuel <= self.nodes@.len(),
                            self.deepest_first(s, self.nodes@.len() as nat) == self.deepest_first(at, fuel as nat),
                        decreases fuel,
                    {
                        proof {
                            self.lemma_neighbors(at);
                        }
                        at = self.nodes[at.index].data.first_child.unwrap();
                        fuel = fuel - 1;
                    }
                    Some(at)
                },
            },
        }
    }

    /// The node before `node` in post-order within its tree.
    pub fn prev_node_post_order(&self, node: Node) -> (r: Option<Node>)
        requires
            self.wf(),
            self.live(node),
        ensures
            r == self.post_prev(node),
            r matches Some(m) ==> self.live(m),
    {
        proof {
            self.lemma_neighbors(node);
        }
        if let Some(l) = self.nodes[node.index].data.last_child {
            return Some(l);
        }
        let mut at = node;
        while self.nodes[at.index].data.parent.is_some() && self.nodes[at.index].data.prev_sibling.is_none()
            invariant
                self.wf(),
                self.live(at),
                self.up_prev(node, self.depth@[node.idx()]) == self.up_prev(at, self.depth@[at.idx()]),
            decreases self.depth_of(at),
        {
            proof {
                self.lemma_step(at, at);
                self.lemma_neighbors(at);
            }
            at = self.nodes[at.index].data.parent.unwrap();
        }
        proof {
            self.lemma_neighbors(at);
        }
        if self.nodes[at.index].data.parent.is_none() {
            None
        } else {
            self.nodes[at.index].data.prev_sibling
        }
    }
}


/// One item of the render tree of a container.
pub enum RenderItem {
    /// A child laid out as a block.
    Block(Node),
    /// A run of inline content: its UTF-8 bytes, where one zero byte stands
    /// for each embedded inline container, and those containers in order.
    Text { text: Vec<u8>, objects: Vec<Node> },
}

/// A render item as values: the block node, or the bytes and objects of a run.
pub open spec fn item_view(it: RenderItem) -> (Option<Node>, Seq<u8>, Seq<Node>) {
    match it {
        RenderItem::Block(n) => (Some(n), Seq::empty(), Seq::empty()),
        RenderItem::Text { text, objects } => (None, text@, objects@),
    }
}

/// A list of render items as values.
pub open spec fn items_view(s: Seq<RenderItem>) -> Seq<(Option<Node>, Seq<u8>, Seq<Node>)> {
    s.map_values(|it: RenderItem| item_view(it))
}

/// The state of the walk that builds a render list: the items so far, and
/// the bytes and objects of the open run.
pub type RenderState = (Seq<(Option<Node>, Seq<u8>, Seq<Node>)>, Seq<u8>, Seq<Node>);

/// Closes the open run: a run with bytes becomes an item; the run is then empty.
pub open spec fn flush_run(st: RenderState) -> RenderState {
    if st.1.len() > 0 {
        (st.0.push((None, st.1, st.2)), Seq::empty(), Seq::empty())
    } else {
        (st.0, Seq::empty(), Seq::empty())
    }
}

impl Gui {
    /// Every live node whose computed style sets `display` sets it to a value
    /// that names a display.
    pub open spec fn displays_valid(&self) -> bool {
        forall|n: Node|
            self.live(n) && #[trigger] self.computed_style_of(n).contains_key(display_key())
                ==> display_named(self.computed_style_of(n)[display_key()]) is Some
    }

    /// The display of a live node under its computed style.
    pub open spec fn display_of(&self, n: Node) -> Display {
        if self.computed_style_of(n).contains_key(display_key()) {
            display_named(self.computed_style_of(n)[display_key()]).unwrap()
        } else {
            default_display_of(self.kind_of(n))
        }
    }

    /// One step of the walk, on `el`: a text leaf appends its UTF-8 bytes; a
    /// hidden node is skipped; an inline container appends one zero byte and
    /// is embedded; an inline span is opened into its children (at most
    /// `fuel` levels down); a block closes the run and is an item of its own.
    pub open spec fn visit_spec(&self, el: Node, st: RenderState, fuel: nat) -> RenderState
        decreases fuel, 0nat,
    {
        if self.kind_of(el) == NodeKind::Text {
            (st.0, st.1 + vstd::utf8::encode_utf8(self.text_of(el)), st.2)
        } else {
            match self.display_of(el) {
                Display::Hidden => st,
                Display::Inline => if self.kind_of(el).is_container_spec() {
                    (st.0, st.1.push(0u8), st.2.push(el))
                } else if fuel > 0 {
                    self.visit_list(self.children(el), st, (fuel - 1) as nat)
                } else {
                    st
                },
                Display::Block => {
                    let f = flush_run(st);
                    (f.0.push((Some(el), Seq::empty(), Seq::empty())), f.1, f.2)
                },
            }
        }
    }

    /// The walk over a list of siblings, in order.
    pub open spec fn visit_list(&self, kids: Seq<Node>, st: RenderState, fuel: nat) -> RenderState
        decreases fuel, kids.len(),
    {
        if kids.len() == 0 {
            st
        } else {
            self.visit_list(kids.skip(1), self.visit_spec(kids[0], st, fuel), fuel)
        }
    }

    /// The render list of `node`: the walk over its children, with the last
    /// run closed.
    pub open spec fn render_items(&self, node: Node) -> Seq<(Option<Node>, Seq<u8>, Seq<Node>)> {
        flush_run(
            self.visit_list(
                self.children(node),
                (Seq::empty(), Seq::empty(), Seq::empty()),
                self.slot_count(),
            ),
        ).0
    }

    /// Whether every live node's `display` property, where set, names a display.
    pub fn check_displays(&self) -> (r: bool)
        ensures
            r == self.displays_valid(),
    {
        let key = "display";
        proof {
            reveal_strlit("display");
            assert(key@ =~= display_key());
        }
        let mut i: usize = 0;
        while i < self.nodes.len()
            invariant
                i <= self.nodes@.len(),
                key@ == display_key(),
                forall|n: Node|
                    self.live(n) && n.idx() < i && #[trigger] self.computed_style_of(n).contains_key(display_key())
                        ==> display_named(self.computed_style_of(n)[display_key()]) is Some,
            decreases self.nodes@.len() - i,
        {
            if self.nodes[i].used {
                match self.nodes[i].data.computed_style.get(key) {
                    Some(v) => {
                        if parse_display(v.as_str()).is_none() {
                            proof {
                                let h = self.handle(i as int);
                                assert(self.live(h));
                                assert(self.computed_style_of(h).contains_key(display_key()));
                            }
                            return false;
                        }
                    },
                    None => {},
                }
            }
            proof {
                assert forall|n: Node|
                    self.live(n) && n.idx() < i + 1 && #[trigger] self.computed_style_of(n).contains_key(display_key())
                        implies display_named(self.computed_style_of(n)[display_key()]) is Some by {
                    if n.idx() == i {
                        assert(self.nodes@[i as int] == self.nodes@[n.idx()]);
                    }
                }
            }
            i = i + 1;
        }
        true
    }

    fn flush_text(items: &mut Vec<RenderItem>, text: &mut Vec<u8>, objects: &mut Vec<Node>)
        ensures
            (items_view(final(items)@), final(text)@, final(objects)@) == flush_run(
                (items_view(old(items)@), old(text)@, old(objects)@),
            ),
    {
        let ghost iv = items_view(items@);
        if text.len() > 0 {
            let mut t: Vec<u8> = Vec::new();
            let mut o: Vec<Node> = Vec::new();
            std::mem::swap(text, &mut t);
            std::mem::swap(objects, &mut o);
            items.push(RenderItem::Text { text: t, objects: o });
            assert(items_view(items@) =~= iv.push((None, t@, o@)));
        } else {
            *objects = Vec::new();
        }
        assert(text@ =~= Seq::<u8>::empty());
    }

    /// One step of the walk on `el`, carried out on the items and open run.
    fn visit(&self, el: Node, items: &mut Vec<RenderItem>, text: &mut Vec<u8>, objects: &mut Vec<Node>, fuel: usize)
        requires
            self.wf(),
            self.displays_valid(),
            self.live(el),
        ensures
            (items_view(final(items)@), final(text)@, final(objects)@) == self.visit_spec(
                el,
                (items_view(old(items)@), old(text)@, old(objects)@),
                fuel as nat,
            ),
        decreases fuel,
    {
        let kind = self.nodes[el.index].data.kind;
        if kind == NodeKind::Text {
            let bytes = self.nodes[el.index].data.text.as_str().as_bytes();
            let ghost t0 = text@;
            let mut i: usize = 0;
            while i < bytes.len()
                invariant
                    i <= bytes@.len(),
                    text@ == t0 + bytes@.take(i as int),
                    objects@ == old(objects)@,
                    *items == *old(items),
                decreases bytes@.len() - i,
            {
                text.push(bytes[i]);
                assert(bytes@.take(i + 1) =~= bytes@.take(i as int).push(bytes@[i as int]));
                i = i + 1;
            }
            assert(bytes@.take(bytes@.len() as int) =~= bytes@);
            return;
        }
        match self.display(el) {
            Display::Hidden => {},
            Display::Inline => {
                if kind.is_container() {
                    text.push(0u8);
                    objects.push(el);
                } else if fuel > 0 {
                    let ghost kids = self.kids@[el.idx()];
                    let ghost st0 = (items_view(items@), text@, objects@);
                    let mut at = self.nodes[el.index].data.first_child;
                    let ghost mut j: int = 0;
                    proof {
                        self.lemma_kids(el);
                        assert(kids.skip(0) =~= kids);
                    }
                    while at.is_some()
                        invariant
                            self.wf(),
                            self.displays_valid(),
                            self.live(el),
                            kids == self.kids@[el.idx()],
                            0 <= j <= kids.len(),
                            at == (if j < kids.len() {
                                Some(kids[j])
                            } else {
                                None
                            }),
                            fuel > 0,
                            self.visit_list(kids, st0, (fuel - 1) as nat) == self.visit_list(
                                kids.skip(j),
                                (items_view(items@), text@, objects@),
                                (fuel - 1) as nat,
                            ),
                        decreases kids.len() - j,
                    {
                        let c = at.unwrap();
                        proof {
                            self.lemma_kids(el);
                            assert(self.d(kids[j].idx()).parent == Some(el));
                            assert(kids.skip(j)[0] == c);
                            assert(kids.skip(j).skip(1) =~= kids.skip(j + 1));
                        }
                        self.visit(c, items, text, objects, fuel - 1);
                        at = self.nodes[c.index].data.next_sibling;
                        proof {
                            j = j + 1;
                        }
                    }
                    proof {
                        assert(kids.skip(j) =~= Seq::<Node>::empty());
                    }
                }
            },
            Display::Block => {
                Gui::flush_text(items, text, objects);
                let ghost iv = items_view(items@);
                items.push(RenderItem::Block(el));
                assert(items_view(items@) =~= iv.push((Some(el), Seq::empty(), Seq::empty())));
            },
        }
    }

    /// Splits the children of `node` into the items its layout places: each
    /// child displayed as a block is an item of its own, and the inline
    /// content between blocks forms text runs, with inline containers
    /// embedded as objects and inline spans opened into their children.
    pub fn render_children(&self, node: Node) -> (r: Vec<RenderItem>)
        requires
            self.wf(),
            self.displays_valid(),
            self.live(node),
        ensures
            items_view(r@) == self.render_items(node),
    {
        let mut items: Vec<RenderItem> = Vec::new();
        let mut text: Vec<u8> = Vec::new();
        let mut objects: Vec<Node> = Vec::new();
        let fuel = self.nodes.len();
        let ghost kids = self.kids@[node.idx()];
        let ghost st0: RenderState = (Seq::empty(), Seq::empty(), Seq::empty());
        let mut at = self.nodes[node.index].data.first_child;
        let ghost mut j: int = 0;
        proof {
            self.lemma_kids(node);
            assert(kids.skip(0) =~= kids);
            assert(items_view(items@) =~= Seq::<(Option<Node>, Seq<u8>, Seq<Node>)>::empty());
        }
        while at.is_some()
            invariant
                self.wf(),
                self.displays_valid(),
                self.live(node),
                fuel == self.slot_count(),
                kids == self.kids@[node.idx()],
                0 <= j <= kids.len(),
                at == (if j < kids.len() {
                    Some(kids[j])
                } else {
                    None
                }),
                self.visit_list(kids, st0, fuel as nat) == self.visit_list(
                    kids.skip(j),
                    (items_view(items@), text@, objects@),
                    fuel as nat,
                ),
            decreases kids.len() - j,
        {
            let c = at.unwrap();
            proof {
                self.lemma_kids(node);
                assert(self.d(kids[j].idx()).parent == Some(node));
                assert(kids.skip(j)[0] == c);
                assert(kids.skip(j).skip(1) =~= kids.skip(j + 1));
            }
            self.visit(c, &mut items, &mut text, &mut objects, fuel);
            at = self.nodes[c.index].data.next_sibling;
            proof {
                j = j + 1;
            }
        }
        proof {
            assert(kids.skip(j) =~= Seq::<Node>::empty());
        }
        Gui::flush_text(&mut items, &mut text, &mut objects);
        items
    }
}


impl Gui {
    /// Whether the computed style of `n` is the cascade of its declared style
    /// over its parent's computed style (over nothing, for a node without
    /// parent).
    pub open spec fn styled(&self, n: Node) -> bool {
        self.computed_style_of(n) == cascade(
            self.style_of(n),
            match self.parent_of(n) {
                Some(p) => self.computed_style_of(p),
                None => Map::empty(),
            },
        )
    }

    /// Whether `n` lies `d` levels below the top of its tree.
    pub fn depth_is(&self, n: Node, d: usize) -> (r: bool)
        requires
            self.wf(),
            self.live(n),
        ensures
            r == (self.depth_of(n) == d),
    {
        let mut at = n;
        let mut k: usize = 0;
        proof {
            self.lemma_step(at, at);
        }
        while k < d && self.nodes[at.index].data.parent.is_some()
            invariant
                self.wf(),
                self.live(at),
                k <= d,
                self.depth_of(at) + k == self.depth_of(n),
            decreases d - k,
        {
            proof {
                self.lemma_step(at, at);
            }
            at = self.nodes[at.index].data.parent.unwrap();
            k = k + 1;
        }
        proof {
            self.lemma_step(at, at);
        }
        k == d && self.nodes[at.index].data.parent.is_none()
    }

    /// Runs the style cascade over every tree, top down: each node's computed
    /// style becomes the cascade of its declared style over its parent's
    /// computed style, for every node within as many levels of the top of its
    /// tree as the arena has slots.
    pub fn style_tree(&mut self)
        requires
            old(self).wf(),
        ensures
            final(self).wf(),
            final(self).slot_count() == old(self).slot_count(),
            final(self).same_live(old(self)),
            forall|n: Node|
                final(self).live(n) && final(self).depth_of(n) <= final(self).slot_count()
                    ==> final(self).styled(n),
            forall|n: Node|
                old(self).live(n) ==> final(self).style_of(n) == old(self).style_of(n)
                    && final(self).parent_of(n) == old(self).parent_of(n) && final(self).children(n)
                    == old(self).children(n) && final(self).kind_of(n) == old(self).kind_of(n)
                    && final(self).text_of(n) == old(self).text_of(n) && final(self).depth_of(n)
                    == old(self).depth_of(n),
            final(self).root_node() == old(self).root_node(),
            final(self).hovered() == old(self).hovered(),
            final(self).activated() == old(self).activated(),
            final(self).focused() == old(self).focused(),
    {
        let ghost s0 = *self;
        let len = self.nodes.len();
        let mut d: usize = 0;
        while d <= len
            invariant
                self.wf(),
                len == self.slot_count(),
                self.slot_count() == s0.slot_count(),
                self.same_live(&s0),
                d <= len + 1,
                forall|n: Node| self.live(n) && self.depth_of(n) < d ==> self.styled(n),
                forall|n: Node|
                    s0.live(n) ==> self.style_of(n) == s0.style_of(n) && self.parent_of(n)
                        == s0.parent_of(n) && self.children(n) == s0.children(n) && self.kind_of(n)
                        == s0.kind_of(n) && self.text_of(n) == s0.text_of(n) && self.depth_of(n)
                        == s0.depth_of(n),
                self.root_node() == s0.root_node(),
                self.hovered() == s0.hovered(),
                self.activated() == s0.activated(),
                self.focused() == s0.focused(),
            decreases len + 1 - d,
        {
            let mut i: usize = 0;
            while i < len
                invariant
                    self.wf(),
                    len == self.slot_count(),
                    self.slot_count() == s0.slot_count(),
                    self.same_live(&s0),
                    d <= len,
                    i <= len,
                    forall|n: Node|
                        self.live(n) && (self.depth_of(n) < d || (self.depth_of(n) == d && n.idx() < i))
                            ==> self.styled(n),
                    forall|n: Node|
                        s0.live(n) ==> self.style_of(n) == s0.style_of(n) && self.parent_of(n)
                            == s0.parent_of(n) && self.children(n) == s0.children(n) && self.kind_of(n)
                            == s0.kind_of(n) && self.text_of(n) == s0.text_of(n) && self.depth_of(n)
                            == s0.depth_of(n),
                    self.root_node() == s0.root_node(),
                    self.hovered() == s0.hovered(),
                    self.activated() == s0.activated(),
                    self.focused() == s0.focused(),
                decreases len - i,
            {
                if self.nodes[i].used {
                    let h = Node { index: i, gen: self.nodes[i].gen };
                    assert(self.live(h));
                    if self.depth_is(h, d) {
                        let ghost s1 = *self;
                        proof {
                            s1.lemma_step(h, h);
                        }
                        self.style_node(h);
                        proof {
                            assert forall|n: Node|
                                self.live(n) && (self.depth_of(n) < d || (self.depth_of(n) == d && n.idx() < i + 1))
                                    implies self.styled(n) by {
                                assert(s1.live(n));
                                if n != h {
                                    s1.lemma_step(n, n);
                                    if let Some(p) = s1.parent_of(n) {
                                        assert(p != h);
                                    }
                                    if n.idx() == i {
                                        assert(n.gen == h.gen);
                                    }
                                }
                            }
                        }
                    } else {
                        proof {
                            assert forall|n: Node|
                                self.live(n) && (self.depth_of(n) < d || (self.depth_of(n) == d && n.idx() < i + 1))
                                    implies self.styled(n) by {
                                if n.idx() == i {
                                    assert(n == h);
                                }
                            }
                        }
                    }
                } else {
                    proof {
                        assert forall|n: Node|
                            self.live(n) && (self.depth_of(n) < d || (self.depth_of(n) == d && n.idx() < i + 1))
                                implies self.styled(n) by {
                            if n.idx() == i {
                                assert(!self.live(n));
                            }
                        }
                    }
                }
                i = i + 1;
            }
            proof {
                assert forall|n: Node| self.live(n) && self.depth_of(n) < d + 1 implies self.styled(n) by {
                    assert(n.idx() < len);
                }
            }
            d = d + 1;
        }
    }
}


/// The traversal orders, one step at a time, in terms of parents, children
/// and siblings: pre-order goes to the first child, else to the next sibling
/// of the nearest node on the way up that has one; backwards it goes to the
/// previous sibling's last descendant, else to the parent. Post-order mirrors
/// both. The tab search takes steps until a node passes.
pub proof fn lemma_order_steps(gui: &Gui, n: Node, fuel: nat, forward: bool, focusable_only: bool)
    requires
        gui.wf(),
        gui.live(n),
    ensures
        gui.pre_next(n) == (if gui.children(n).len() > 0 {
            Some(gui.children(n)[0])
        } else {
            gui.up_next(n, gui.depth_of(n))
        }),
        gui.up_next(n, fuel) == (match gui.parent_of(n) {
            None => None,
            Some(p) => match gui.next_of(n) {
                Some(x) => Some(x),
                None => if fuel == 0 {
                    None
                } else {
                    gui.up_next(p, (fuel - 1) as nat)
                },
            },
        }),
        gui.pre_prev(n) == (match gui.parent_of(n) {
            None => None,
            Some(p) => match gui.prev_of(n) {
                Some(x) => Some(gui.deepest_last(x, gui.slot_count())),
                None => Some(p),
            },
        }),
        gui.deepest_last(n, fuel) == (if fuel == 0 || gui.children(n).len() == 0 {
            n
        } else {
            gui.deepest_last(gui.children(n).last(), (fuel - 1) as nat)
        }),
        gui.post_next(n) == (match gui.parent_of(n) {
            None => None,
            Some(p) => match gui.next_of(n) {
                Some(x) => Some(gui.deepest_first(x, gui.slot_count())),
                None => Some(p),
            },
        }),
        gui.deepest_first(n, fuel) == (if fuel == 0 || gui.children(n).len() == 0 {
            n
        } else {
            gui.deepest_first(gui.children(n)[0], (fuel - 1) as nat)
        }),
        gui.post_prev(n) == (if gui.children(n).len() > 0 {
            Some(gui.children(n).last())
        } else {
            gui.up_prev(n, gui.depth_of(n))
        }),
        gui.up_prev(n, fuel) == (match gui.parent_of(n) {
            None => None,
            Some(p) => match gui.prev_of(n) {
                Some(x) => Some(x),
                None => if fuel == 0 {
                    None
                } else {
                    gui.up_prev(p, (fuel - 1) as nat)
                },
            },
        }),
        gui.find_from(n, forward, focusable_only, fuel) == (if fuel == 0 {
            None
        } else {
            match (if forward {
                gui.pre_next(n)
            } else {
                gui.pre_prev(n)
            }) {
                None => None,
                Some(x) => if !focusable_only || gui.kind_of(x) == NodeKind::Button {
                    Some(x)
                } else {
                    gui.find_from(x, forward, focusable_only, (fuel - 1) as nat)
                },
            }
        }),
{
    gui.lemma_kids(n);
    gui.lemma_sibling(n);
}

} // verus!
