//! The chapter tree: an arena of nodes linked by parent / first-child /
//! next-sibling pointers, together with the interned styles and the semantic
//! attributes (ids, hrefs, list starts) that passes over the tree consult.
//!
//! The linked structure is described by a ghost map from each node that hangs
//! in the tree to the sequence of its children; [`Chapter::wf`] ties the
//! pointers to that map.

use vstd::prelude::*;
use crate::links::NodeId;

verus! {

/// Semantic role of a node.
#[derive(Debug, Clone, Copy, PartialEq, Eq, Structural)]
pub enum Role {
    Root,
    Container,
    Paragraph,
    Heading(u8),
    BlockQuote,
    OrderedList,
    UnorderedList,
    ListItem,
    Text,
    Inline,
    Link,
    Image,
    Break,
    Table,
    TableRow,
    TableCell,
    Figure,
    Sidebar,
}

/// Index of an interned style in the chapter's [`StylePool`].
#[derive(Debug, Clone, Copy, PartialEq, Eq, Structural)]
pub struct StyleId(pub u32);

/// Font weight on the CSS 100..900 scale.
#[derive(Debug, Clone, Copy, PartialEq, Eq, Structural)]
pub struct FontWeight(pub u16);

impl FontWeight {
    /// Regular weight (400).
    pub fn normal() -> (r: FontWeight)
        ensures
            r.0 == 400,
    {
        FontWeight(400)
    }

    /// Bold weight (700).
    pub fn bold() -> (r: FontWeight)
        ensures
            r.0 == 700,
    {
        FontWeight(700)
    }
}

/// Font style.
#[derive(Debug, Clone, Copy, PartialEq, Eq, Structural)]
pub enum FontStyle {
    Normal,
    Italic,
}

/// The resolved presentation of a node.
#[derive(Debug, Clone, Copy, PartialEq, Eq, Structural)]
pub struct ComputedStyle {
    pub font_weight: FontWeight,
    pub font_style: FontStyle,
    /// Left margin in hundredths of an em.
    pub margin_left: i32,
}

impl Default for ComputedStyle {
    fn default() -> (r: ComputedStyle)
        ensures
            r.font_weight.0 == 400,
            r.font_style == FontStyle::Normal,
            r.margin_left == 0,
    {
        ComputedStyle { font_weight: FontWeight(400), font_style: FontStyle::Normal, margin_left: 0 }
    }
}

/// Interned styles: equal styles share one [`StyleId`]; id 0 is the default
/// style.
pub struct StylePool {
    pub styles: Vec<ComputedStyle>,
}

impl StylePool {
    /// A pool holding only the default style.
    pub fn new() -> (r: StylePool)
        ensures
            r.styles@.len() == 1,
            r.styles@[0] == (ComputedStyle {
                font_weight: FontWeight(400),
                font_style: FontStyle::Normal,
                margin_left: 0,
            }),
    {
        let mut styles = Vec::new();
        styles.push(ComputedStyle::default());
        StylePool { styles }
    }

    /// Intern `style`: the id of an equal style already in the pool, or the
    /// id of `style` appended at the end.
    pub fn intern(&mut self, style: ComputedStyle) -> (r: StyleId)
        requires
            old(self).styles@.len() < u32::MAX,
        ensures
            (r.0 as int) < final(self).styles@.len(),
            final(self).styles@[r.0 as int] == style,
            old(self).styles@.contains(style) ==> final(self).styles@ == old(self).styles@,
            !old(self).styles@.contains(style) ==> final(self).styles@ == old(self).styles@.push(style),
    {
        let mut i: usize = 0;
        while i < self.styles.len()
            invariant
                0 <= i <= self.styles@.len(),
                self.styles@ == old(self).styles@,
                self.styles@.len() < u32::MAX,
                forall|j: int| 0 <= j < i ==> self.styles@[j] != style,
            decreases self.styles@.len() - i,
        {
            if self.styles[i] == style {
                return StyleId(i as u32);
            }
            i = i + 1;
        }
        let id = self.styles.len() as u32;
        self.styles.push(style);
        StyleId(id)
    }
}

/// Semantic attributes attached to nodes: element ids (link targets), link
/// hrefs, and the `start` number of ordered lists.
pub struct SemanticMap {
    pub ids: Vec<(NodeId, String)>,
    pub hrefs: Vec<(NodeId, String)>,
    pub list_starts: Vec<(NodeId, u32)>,
}

/// Entry `j` of `s` is the first one for `node`: the one that lookups find.
pub open spec fn first_entry<V>(s: Seq<(NodeId, V)>, node: u32, j: int) -> bool {
    &&& 0 <= j < s.len()
    &&& s[j].0.0 == node
    &&& forall|k: int| 0 <= k < j ==> (#[trigger] s[k]).0.0 != node
}

/// A node has at most one first entry.
pub proof fn lemma_first_entry_unique<V>(s: Seq<(NodeId, V)>, node: u32, j1: int, j2: int)
    requires
        first_entry(s, node, j1),
        first_entry(s, node, j2),
    ensures
        j1 == j2,
{
    if j1 < j2 {
        assert(s[j1].0.0 != node);
    } else if j2 < j1 {
        assert(s[j2].0.0 != node);
    }
}

/// Giving `node` the value `v` in the entries `s` (as `set_id` and
/// `set_list_start` do): its first entry is overwritten, or, when it has
/// none, an entry is appended.
pub open spec fn entry_set<V>(old_s: Seq<(NodeId, V)>, new_s: Seq<(NodeId, V)>, node: NodeId, v: V) -> bool {
    if exists|j: int| first_entry(old_s, node.0, j) {
        exists|j: int| first_entry(old_s, node.0, j) && new_s == old_s.update(j, (node, v))
    } else {
        new_s == old_s.push((node, v))
    }
}

impl SemanticMap {
    /// No attributes at all.
    pub fn new() -> (r: SemanticMap)
        ensures
            r.ids@.len() == 0,
            r.hrefs@.len() == 0,
            r.list_starts@.len() == 0,
    {
        SemanticMap { ids: Vec::new(), hrefs: Vec::new(), list_starts: Vec::new() }
    }

    /// Whether `node` carries an id.
    pub open spec fn has_id(self, node: u32) -> bool {
        exists|i: int| 0 <= i < self.ids@.len() && (#[trigger] self.ids@[i]).0.0 == node
    }

    /// Whether `node` carries an href.
    pub open spec fn has_href(self, node: u32) -> bool {
        exists|i: int| 0 <= i < self.hrefs@.len() && (#[trigger] self.hrefs@[i]).0.0 == node
    }

    /// Whether `node` carries a list start number.
    pub open spec fn has_list_start(self, node: u32) -> bool {
        exists|i: int| 0 <= i < self.list_starts@.len() && (#[trigger] self.list_starts@[i]).0.0 == node
    }

    /// Whether `node` carries any semantic attribute.
    pub open spec fn has_attrs(self, node: u32) -> bool {
        self.has_id(node) || self.has_href(node) || self.has_list_start(node)
    }

    /// Give `node` the id `id` (replacing an earlier one).
    pub fn set_id(&mut self, node: NodeId, id: &str)
        ensures
            final(self).hrefs@ == old(self).hrefs@,
            final(self).list_starts@ == old(self).list_starts@,
            final(self).ids@.len() == old(self).ids@.len() || final(self).ids@.len() == old(self).ids@.len() + 1,
            forall|j: int|
                0 <= j < old(self).ids@.len() && old(self).ids@[j].0.0 != node.0 ==> final(self).ids@[j] == old(self).ids@[j],
            exists|j: int| first_entry(final(self).ids@, node.0, j) && (#[trigger] final(self).ids@[j]).1@ == id@,
            final(self).has_id(node.0),
            forall|n: u32| n != node.0 ==> (final(self).has_id(n) <==> old(self).has_id(n)),
            forall|n: u32, j: int|
                n != node.0 ==> (first_entry(final(self).ids@, n, j) <==> first_entry(old(self).ids@, n, j)),
    {
        let mut i: usize = 0;
        while i < self.ids.len()
            invariant
                0 <= i <= self.ids@.len(),
                self.ids@ == old(self).ids@,
                self.hrefs@ == old(self).hrefs@,
                self.list_starts@ == old(self).list_starts@,
                forall|j: int| 0 <= j < i ==> (#[trigger] self.ids@[j]).0.0 != node.0,
            decreases self.ids@.len() - i,
        {
            if self.ids[i].0.0 == node.0 {
                let ghost before = self.ids@;
                self.ids.set(i, (node, id.to_string()));
                assert forall|n: u32| n != node.0 implies (self.has_id(n) <==> old(self).has_id(n)) by {
                    if self.has_id(n) {
                        let k = choose|k: int| 0 <= k < self.ids@.len() && (#[trigger] self.ids@[k]).0.0 == n;
                        assert(before[k].0.0 == n);
                    }
                    if old(self).has_id(n) {
                        let k = choose|k: int| 0 <= k < before.len() && (#[trigger] before[k]).0.0 == n;
                        assert(self.ids@[k].0.0 == n);
                    }
                }
                assert(self.ids@[i as int].0.0 == node.0);
                assert(first_entry(self.ids@, node.0, i as int));
                assert forall|n: u32, j: int| n != node.0 implies (first_entry(self.ids@, n, j) <==> first_entry(before, n, j)) by {
                    if first_entry(self.ids@, n, j) {
                        assert forall|k: int| 0 <= k < j implies (#[trigger] before[k]).0.0 != n by {
                            assert(self.ids@[k].0.0 != n);
                        }
                    }
                    if first_entry(before, n, j) {
                        assert forall|k: int| 0 <= k < j implies (#[trigger] self.ids@[k]).0.0 != n by {
                            assert(before[k].0.0 != n);
                        }
                    }
                }
                return;
            }
            i = i + 1;
        }
        let ghost before = self.ids@;
        self.ids.push((node, id.to_string()));
        assert(self.ids@[before.len() as int].0.0 == node.0);
        assert(first_entry(self.ids@, node.0, before.len() as int));
        assert forall|n: u32| n != node.0 implies (self.has_id(n) <==> old(self).has_id(n)) by {
            if self.has_id(n) {
                let k = choose|k: int| 0 <= k < self.ids@.len() && (#[trigger] self.ids@[k]).0.0 == n;
                assert(before[k].0.0 == n);
            }
            if old(self).has_id(n) {
                let k = choose|k: int| 0 <= k < before.len() && (#[trigger] before[k]).0.0 == n;
                assert(self.ids@[k].0.0 == n);
            }
        }
        assert forall|n: u32, j: int| n != node.0 implies (first_entry(self.ids@, n, j) <==> first_entry(before, n, j)) by {
            if first_entry(self.ids@, n, j) {
                assert forall|k: int| 0 <= k < j implies (#[trigger] before[k]).0.0 != n by {
                    assert(self.ids@[k].0.0 != n);
                }
            }
            if first_entry(before, n, j) {
                assert forall|k: int| 0 <= k < j implies (#[trigger] self.ids@[k]).0.0 != n by {
                    assert(before[k].0.0 != n);
                }
            }
        }
    }

    /// The id of `node`, if it has one.
    pub fn id(&self, node: NodeId) -> (r: Option<&str>)
        ensures
            r is Some <==> self.has_id(node.0),
            r matches Some(v) ==> exists|j: int| first_entry(self.ids@, node.0, j) && (#[trigger] self.ids@[j]).1@ == v@,
    {
        let mut i: usize = 0;
        while i < self.ids.len()
            invariant
                0 <= i <= self.ids@.len(),
                forall|j: int| 0 <= j < i ==> (#[trigger] self.ids@[j]).0.0 != node.0,
            decreases self.ids@.len() - i,
        {
            if self.ids[i].0.0 == node.0 {
                assert(first_entry(self.ids@, node.0, i as int));
                return Some(self.ids[i].1.as_str());
            }
            i = i + 1;
        }
        None
    }

    /// Give `node` the list start `start` (replacing an earlier one).
    pub fn set_list_start(&mut self, node: NodeId, start: u32)
        ensures
            final(self).ids@ == old(self).ids@,
            final(self).hrefs@ == old(self).hrefs@,
            entry_set(old(self).list_starts@, final(self).list_starts@, node, start),
            exists|j: int| first_entry(final(self).list_starts@, node.0, j) && (#[trigger] final(self).list_starts@[j]).1 == start,
            final(self).has_list_start(node.0),
    {
        let mut i: usize = 0;
        while i < self.list_starts.len()
            invariant
                0 <= i <= self.list_starts@.len(),
                self.list_starts@ == old(self).list_starts@,
                self.ids@ == old(self).ids@,
                self.hrefs@ == old(self).hrefs@,
                forall|j: int| 0 <= j < i ==> (#[trigger] self.list_starts@[j]).0.0 != node.0,
            decreases self.list_starts@.len() - i,
        {
            if self.list_starts[i].0.0 == node.0 {
                let ghost before = self.list_starts@;
                self.list_starts.set(i, (node, start));
                assert(self.list_starts@[i as int].0.0 == node.0);
                assert(first_entry(before, node.0, i as int));
                assert(first_entry(self.list_starts@, node.0, i as int));
                assert(self.list_starts@ == before.update(i as int, (node, start)));
                return;
            }
            i = i + 1;
        }
        let ghost before = self.list_starts@;
        assert(!exists|j: int| first_entry(before, node.0, j));
        self.list_starts.push((node, start));
        assert(self.list_starts@[before.len() as int].0.0 == node.0);
        assert(first_entry(self.list_starts@, node.0, before.len() as int));
    }

    /// The list start of `node`, if it has one.
    pub fn list_start(&self, node: NodeId) -> (r: Option<u32>)
        ensures
            r is Some <==> self.has_list_start(node.0),
            r matches Some(v) ==> exists|j: int|
                first_entry(self.list_starts@, node.0, j) && #[trigger] self.list_starts@[j] == (node, v),
    {
        let mut i: usize = 0;
        while i < self.list_starts.len()
            invariant
                0 <= i <= self.list_starts@.len(),
                forall|j: int| 0 <= j < i ==> (#[trigger] self.list_starts@[j]).0.0 != node.0,
            decreases self.list_starts@.len() - i,
        {
            if self.list_starts[i].0.0 == node.0 {
                let r = self.list_starts[i].1;
                assert(self.list_starts@[i as int] == (node, r));
                assert(first_entry(self.list_starts@, node.0, i as int));
                return Some(r);
            }
            i = i + 1;
        }
        None
    }

    /// Whether `node` carries any semantic attribute (id, href or list start).
    pub fn has_any(&self, node: NodeId) -> (r: bool)
        ensures
            r == self.has_attrs(node.0),
    {
        let mut i: usize = 0;
        while i < self.ids.len()
            invariant
                0 <= i <= self.ids@.len(),
                forall|j: int| 0 <= j < i ==> (#[trigger] self.ids@[j]).0.0 != node.0,
            decreases self.ids@.len() - i,
        {
            if self.ids[i].0.0 == node.0 {
                return true;
            }
            i = i + 1;
        }
        let mut i: usize = 0;
        while i < self.hrefs.len()
            invariant
                0 <= i <= self.hrefs@.len(),
                !self.has_id(node.0),
                forall|j: int| 0 <= j < i ==> (#[trigger] self.hrefs@[j]).0.0 != node.0,
            decreases self.hrefs@.len() - i,
        {
            if self.hrefs[i].0.0 == node.0 {
                return true;
            }
            i = i + 1;
        }
        let mut i: usize = 0;
        while i < self.list_starts.len()
            invariant
                0 <= i <= self.list_starts@.len(),
                !self.has_id(node.0),
                !self.has_href(node.0),
                forall|j: int| 0 <= j < i ==> (#[trigger] self.list_starts@[j]).0.0 != node.0,
            decreases self.list_starts@.len() - i,
        {
            if self.list_starts[i].0.0 == node.0 {
                return true;
            }
            i = i + 1;
        }
        false
    }
}

/// One node of the chapter tree.
#[derive(Debug, Clone, Copy)]
pub struct Node {
    pub role: Role,
    pub style: StyleId,
    pub parent: Option<NodeId>,
    pub first_child: Option<NodeId>,
    pub last_child: Option<NodeId>,
    pub next_sibling: Option<NodeId>,
}

impl Node {
    /// A detached node with the given role and the default style.
    pub fn new(role: Role) -> (r: Node)
        ensures
            r.role == role,
            r.style.0 == 0,
            r.parent is None,
            r.first_child is None,
            r.last_child is None,
            r.next_sibling is None,
    {
        Node {
            role,
            style: StyleId(0),
            parent: None,
            first_child: None,
            last_child: None,
            next_sibling: None,
        }
    }
}

/// `Some(NodeId(x))` in spec code.
pub open spec fn some_id(x: u32) -> Option<NodeId> {
    Some(NodeId(x))
}

/// A chapter: the node arena, its styles and semantic attributes, and the
/// ghost shape of the tree (children of every attached node, and depths).
pub struct Chapter {
    pub nodes: Vec<Node>,
    pub styles: StylePool,
    pub semantics: SemanticMap,
    pub tree: Ghost<Map<u32, Seq<u32>>>,
    pub depth: Ghost<Map<u32, nat>>,
}

impl Chapter {
    /// Whether `x` is attached to the tree (reachable from the root).
    pub open spec fn live(self, x: u32) -> bool {
        self.tree@.dom().contains(x)
    }

    /// The children of `p`, in document order.
    pub open spec fn kids(self, p: u32) -> Seq<u32> {
        self.tree@[p]
    }

    /// The node with index `x`.
    pub open spec fn nd(self, x: u32) -> Node {
        self.nodes@[x as int]
    }

    /// The sibling links of `p`'s children match `kids(p)`.
    pub open spec fn chain_ok(self, p: u32) -> bool {
        let s = self.kids(p);
        &&& self.nd(p).first_child == (if s.len() == 0 { None::<NodeId> } else { some_id(s[0]) })
        &&& forall|i: int|
            0 <= i < s.len() ==> (#[trigger] self.nd(s[i])).next_sibling == (if i + 1 < s.len() {
                some_id(s[i + 1])
            } else {
                None::<NodeId>
            })
    }

    /// The parent pointer of an attached non-root node names an attached node
    /// that lists it among its children, one level up.
    pub open spec fn parent_ok(self, c: u32) -> bool {
        match self.nd(c).parent {
            Some(q) => self.live(q.0) && self.kids(q.0).contains(c) && self.depth@[c] == self.depth@[q.0] + 1,
            None => false,
        }
    }

    /// Every attached node is in the arena, and its children's sibling links
    /// match its children sequence, which has no repetition.
    #[verifier::opaque]
    pub open spec fn wf_links(self) -> bool {
        forall|p: u32| #[trigger] self.live(p) ==> {
            &&& (p as int) < self.nodes@.len()
            &&& self.chain_ok(p)
            &&& self.kids(p).no_duplicates()
        }
    }

    /// The children of an attached node are attached non-root nodes that
    /// point back to it.
    #[verifier::opaque]
    pub open spec fn wf_kids(self) -> bool {
        forall|p: u32, i: int|
            #![trigger self.kids(p)[i]]
            self.live(p) && 0 <= i < self.kids(p).len() ==> {
                &&& self.kids(p)[i] != 0
                &&& self.live(self.kids(p)[i])
                &&& self.nd(self.kids(p)[i]).parent == some_id(p)
            }
    }

    /// Every attached non-root node hangs below an attached parent.
    #[verifier::opaque]
    pub open spec fn wf_parents(self) -> bool {
        forall|c: u32| #[trigger] self.live(c) && c != 0 ==> self.parent_ok(c)
    }

    /// Well-formedness of the arena and the tree.
    pub open spec fn wf(self) -> bool {
        &&& 0 < self.nodes@.len() <= u32::MAX
        &&& self.live(0)
        &&& self.depth@[0] == 0
        &&& self.wf_links()
        &&& self.wf_kids()
        &&& self.wf_parents()
    }

    /// What a node looks like, as far as the passes over the tree read it:
    /// the role and style of every node, and the semantic attributes.
    pub open spec fn same_content(self, other: Chapter) -> bool {
        &&& self.nodes@.len() == other.nodes@.len()
        &&& forall|i: int|
            0 <= i < self.nodes@.len() ==> (#[trigger] self.nodes@[i]).role == other.nodes@[i].role
                && self.nodes@[i].style == other.nodes@[i].style
        &&& self.styles.styles@ == other.styles.styles@
        &&& self.semantics.ids@ == other.semantics.ids@
        &&& self.semantics.hrefs@ == other.semantics.hrefs@
        &&& self.semantics.list_starts@ == other.semantics.list_starts@
    }

    /// A chapter holding only the root node.
    pub fn new() -> (r: Chapter)
        ensures
            r.wf(),
            r.nodes@.len() == 1,
            r.nodes@[0].role == Role::Root,
            r.tree@ == Map::<u32, Seq<u32>>::empty().insert(0, Seq::<u32>::empty()),
            r.styles.styles@ == seq![ComputedStyle { font_weight: FontWeight(400), font_style: FontStyle::Normal, margin_left: 0 }],
            r.semantics.ids@.len() == 0,
            r.semantics.hrefs@.len() == 0,
            r.semantics.list_starts@.len() == 0,
    {
        let mut nodes = Vec::new();
        nodes.push(Node::new(Role::Root));
        let ch = Chapter {
            nodes,
            styles: StylePool::new(),
            semantics: SemanticMap::new(),
            tree: Ghost(Map::empty().insert(0u32, Seq::empty())),
            depth: Ghost(Map::empty().insert(0u32, 0nat)),
        };
        proof {
            reveal(Chapter::wf_links);
            reveal(Chapter::wf_kids);
            reveal(Chapter::wf_parents);
            assert forall|c: u32| #[trigger] ch.live(c) && c != 0 implies ch.parent_ok(c) by {}
            assert(ch.styles.styles@ =~= seq![ComputedStyle { font_weight: FontWeight(400), font_style: FontStyle::Normal, margin_left: 0 }]);
        }
        ch
    }

    /// Add `node` to the arena, detached; returns its id.
    pub fn alloc_node(&mut self, node: Node) -> (r: NodeId)
        requires
            old(self).wf(),
            old(self).nodes@.len() < u32::MAX,
        ensures
            final(self).wf(),
            r.0 == old(self).nodes@.len(),
            final(self).nodes@ == old(self).nodes@.push(node),
            final(self).tree@ == old(self).tree@,
            final(self).styles.styles@ == old(self).styles.styles@,
            final(self).semantics.ids@ == old(self).semantics.ids@,
            final(self).semantics.hrefs@ == old(self).semantics.hrefs@,
            final(self).semantics.list_starts@ == old(self).semantics.list_starts@,
    {
        let id = self.nodes.len() as u32;
        let ghost old_self = *self;
        self.nodes.push(node);
        proof {
            lemma_wf_frame(old_self, *self);
        }
        NodeId(id)
    }

    /// Set the `next_sibling` link of node `x` (no other change).
    pub(crate) fn set_next(&mut self, x: u32, v: Option<NodeId>)
        requires
            (x as int) < old(self).nodes@.len(),
        ensures
            final(self).nodes@ == old(self).nodes@.update(x as int, Node { next_sibling: v, ..old(self).nodes@[x as int] }),
            final(self).tree@ == old(self).tree@,
            final(self).depth@ == old(self).depth@,
            final(self).styles.styles@ == old(self).styles.styles@,
            final(self).semantics.ids@ == old(self).semantics.ids@,
            final(self).semantics.hrefs@ == old(self).semantics.hrefs@,
            final(self).semantics.list_starts@ == old(self).semantics.list_starts@,
    {
        let mut nd = self.nodes[x as usize];
        nd.next_sibling = v;
        self.nodes.set(x as usize, nd);
    }

    /// Set the `first_child` link of node `x` (no other change).
    pub(crate) fn set_first(&mut self, x: u32, v: Option<NodeId>)
        requires
            (x as int) < old(self).nodes@.len(),
        ensures
            final(self).nodes@ == old(self).nodes@.update(x as int, Node { first_child: v, ..old(self).nodes@[x as int] }),
            final(self).tree@ == old(self).tree@,
            final(self).depth@ == old(self).depth@,
            final(self).styles.styles@ == old(self).styles.styles@,
            final(self).semantics.ids@ == old(self).semantics.ids@,
            final(self).semantics.hrefs@ == old(self).semantics.hrefs@,
            final(self).semantics.list_starts@ == old(self).semantics.list_starts@,
    {
        let mut nd = self.nodes[x as usize];
        nd.first_child = v;
        self.nodes.set(x as usize, nd);
    }

    /// Set the `last_child` link of node `x` (no other change).
    pub(crate) fn set_last(&mut self, x: u32, v: Option<NodeId>)
        requires
            (x as int) < old(self).nodes@.len(),
        ensures
            final(self).nodes@ == old(self).nodes@.update(x as int, Node { last_child: v, ..old(self).nodes@[x as int] }),
            final(self).tree@ == old(self).tree@,
            final(self).depth@ == old(self).depth@,
            final(self).styles.styles@ == old(self).styles.styles@,
            final(self).semantics.ids@ == old(self).semantics.ids@,
            final(self).semantics.hrefs@ == old(self).semantics.hrefs@,
            final(self).semantics.list_starts@ == old(self).semantics.list_starts@,
    {
        let mut nd = self.nodes[x as usize];
        nd.last_child = v;
        self.nodes.set(x as usize, nd);
    }

    /// Set the `parent` link of node `x` (no other change).
    pub(crate) fn set_parent(&mut self, x: u32, v: Option<NodeId>)
        requires
            (x as int) < old(self).nodes@.len(),
        ensures
            final(self).nodes@ == old(self).nodes@.update(x as int, Node { parent: v, ..old(self).nodes@[x as int] }),
            final(self).tree@ == old(self).tree@,
            final(self).depth@ == old(self).depth@,
            final(self).styles.styles@ == old(self).styles.styles@,
            final(self).semantics.ids@ == old(self).semantics.ids@,
            final(self).semantics.hrefs@ == old(self).semantics.hrefs@,
            final(self).semantics.list_starts@ == old(self).semantics.list_starts@,
    {
        let mut nd = self.nodes[x as usize];
        nd.parent = v;
        self.nodes.set(x as usize, nd);
    }

    /// Walk the children of attached node `p` to its last child.
    pub(crate) fn last_child_of(&self, p: u32) -> (r: Option<NodeId>)
        requires
            self.wf(),
            self.live(p),
        ensures
            self.kids(p).len() == 0 ==> r is None,
            self.kids(p).len() > 0 ==> r == some_id(self.kids(p).last()),
    {
        let ghost s = self.kids(p);
        proof {
            lemma_live(*self, p);
        }
        let mut cur = self.nodes[p as usize].first_child;
        let mut last: Option<NodeId> = None;
        let ghost mut k: int = 0;
        while cur.is_some()
            invariant
                self.wf(),
                self.live(p),
                s == self.kids(p),
                0 <= k <= s.len(),
                cur == (if k < s.len() { some_id(s[k]) } else { None::<NodeId> }),
                last == (if k == 0 { None::<NodeId> } else { some_id(s[k - 1]) }),
            decreases s.len() - k,
        {
            let c = cur.unwrap();
            proof {
                lemma_live(*self, p);
                lemma_kid(*self, p, k);
            }
            assert(self.nd(s[k]).next_sibling == (if k + 1 < s.len() { some_id(s[k + 1]) } else { None::<NodeId> }));
            last = cur;
            cur = self.nodes[c.0 as usize].next_sibling;
            proof {
                k = k + 1;
            }
        }
        last
    }

    /// The children of `id`, in document order (following the sibling links;
    /// for a detached node, at most as many as there are nodes).
    pub fn children(&self, id: NodeId) -> (r: Vec<NodeId>)
        requires
            self.wf(),
        ensures
            self.live(id.0) ==> r@ == self.kids(id.0).map_values(|x: u32| NodeId(x)),
            !self.live(id.0) && (id.0 as int) >= self.nodes@.len() ==> r@.len() == 0,
    {
        let mut out: Vec<NodeId> = Vec::new();
        if (id.0 as usize) >= self.nodes.len() {
            proof {
                if self.live(id.0) {
                    lemma_live(*self, id.0);
                }
            }
            return out;
        }
        let ghost s = self.kids(id.0);
        let ghost live = self.live(id.0);
        proof {
            if live {
                lemma_live(*self, id.0);
            }
        }
        let mut cur = self.nodes[id.0 as usize].first_child;
        let n = self.nodes.len();
        let mut steps: usize = 0;
        while steps < n && cur.is_some() && (cur.unwrap().0 as usize) < n
            invariant
                self.wf(),
                n == self.nodes@.len(),
                live == self.live(id.0),
                s == self.kids(id.0),
                0 <= steps <= n,
                live ==> steps <= s.len(),
                live ==> cur == (if steps < s.len() { some_id(s[steps as int]) } else { None::<NodeId> }),
                live ==> out@ == s.take(steps as int).map_values(|x: u32| NodeId(x)),
            decreases n - steps,
        {
            let c = cur.unwrap();
            proof {
                if live {
                    lemma_live(*self, id.0);
                    lemma_kid(*self, id.0, steps as int);
                    assert(self.nd(s[steps as int]).next_sibling == (if steps + 1 < s.len() { some_id(s[steps + 1]) } else { None::<NodeId> }));
                    assert(s.take(steps + 1) == s.take(steps as int).push(s[steps as int]));
                }
            }
            out.push(c);
            cur = self.nodes[c.0 as usize].next_sibling;
            steps = steps + 1;
        }
        proof {
            if live {
                lemma_live(*self, id.0);
                if steps < s.len() {
                    lemma_kid(*self, id.0, steps as int);
                    assert(s.len() <= n) by {
                        assert forall|i: int| 0 <= i < s.len() implies (s[i] as int) < n by {
                            lemma_kid(*self, id.0, i);
                        }
                        lemma_distinct_bounded(s, n as nat);
                    }
                }
                assert(s.take(s.len() as int) == s);
            }
        }
        out
    }

    /// Attach `child` (a detached node without children) as the last child of
    /// the attached node `parent`.
    pub fn append_child(&mut self, parent: NodeId, child: NodeId)
        requires
            old(self).wf(),
            old(self).live(parent.0),
            (child.0 as int) < old(self).nodes@.len(),
            !old(self).live(child.0),
            child.0 != 0,
            old(self).nd(child.0).first_child is None,
        ensures
            final(self).wf(),
            final(self).tree@ == old(self).tree@.insert(parent.0, old(self).kids(parent.0).push(child.0)).insert(
                child.0,
                Seq::<u32>::empty(),
            ),
            final(self).same_content(*old(self)),
    {
        let p = parent.0;
        let c = child.0;
        let ghost old_self = *self;
        let ghost s = self.kids(p);
        let last = self.last_child_of(p);
        proof {
            lemma_live(old_self, p);
            if s.len() > 0 {
                lemma_kid(old_self, p, s.len() - 1);
                lemma_not_own_kid(old_self, p, s.len() - 1);
            }
        }
        match last {
            Some(l) => {
                self.set_next(l.0, Some(child));
            },
            None => {
                self.set_first(p, Some(child));
            },
        }
        self.set_last(p, Some(child));
        self.set_parent(c, Some(parent));
        self.set_next(c, None);
        let ghost s2 = s.push(c);
        self.tree = Ghost(self.tree@.insert(p, s2).insert(c, Seq::empty()));
        self.depth = Ghost(self.depth@.insert(c, self.depth@[p] + 1));
        proof {
            lemma_append_wf(old_self, *self, p, c);
        }
    }

    /// The node with the given id, if it exists.
    pub fn node(&self, id: NodeId) -> (r: Option<&Node>)
        ensures
            (id.0 as int) < self.nodes@.len() ==> r == Some(&self.nodes@[id.0 as int]),
            (id.0 as int) >= self.nodes@.len() ==> r is None,
    {
        if (id.0 as usize) < self.nodes.len() {
            Some(&self.nodes[id.0 as usize])
        } else {
            None
        }
    }

    /// Set the style of an existing node.
    pub fn set_style(&mut self, id: NodeId, style: StyleId)
        requires
            old(self).wf(),
        ensures
            final(self).wf(),
            final(self).tree@ == old(self).tree@,
            final(self).nodes@.len() == old(self).nodes@.len(),
            (id.0 as int) < old(self).nodes@.len() ==> final(self).nodes@ == old(self).nodes@.update(
                id.0 as int,
                Node { style, ..old(self).nodes@[id.0 as int] },
            ),
            (id.0 as int) >= old(self).nodes@.len() ==> final(self).nodes@ == old(self).nodes@,
    {
        if (id.0 as usize) < self.nodes.len() {
            let ghost old_self = *self;
            let mut nd = self.nodes[id.0 as usize];
            nd.style = style;
            self.nodes.set(id.0 as usize, nd);
            proof {
                lemma_wf_frame(old_self, *self);
            }
        }
    }
}

/// Facts about an attached node of a well-formed chapter.
pub proof fn lemma_live(ch: Chapter, p: u32)
    requires
        ch.wf(),
        ch.live(p),
    ensures
        (p as int) < ch.nodes@.len(),
        ch.chain_ok(p),
        ch.kids(p).no_duplicates(),
{
    reveal(Chapter::wf_links);
}

/// Facts about a child of an attached node of a well-formed chapter.
pub proof fn lemma_kid(ch: Chapter, p: u32, i: int)
    requires
        ch.wf(),
        ch.live(p),
        0 <= i < ch.kids(p).len(),
    ensures
        ch.kids(p)[i] != 0,
        ch.live(ch.kids(p)[i]),
        ch.nd(ch.kids(p)[i]).parent == some_id(p),
        (ch.kids(p)[i] as int) < ch.nodes@.len(),
{
    reveal(Chapter::wf_kids);
    reveal(Chapter::wf_links);
}

/// Facts about the parent of an attached non-root node.
pub proof fn lemma_parent(ch: Chapter, c: u32)
    requires
        ch.wf(),
        ch.live(c),
        c != 0,
    ensures
        ch.parent_ok(c),
{
    reveal(Chapter::wf_parents);
}

/// A node is not its own child, and a node's children differ from it.
pub proof fn lemma_not_own_kid(ch: Chapter, p: u32, i: int)
    requires
        ch.wf(),
        ch.live(p),
        0 <= i < ch.kids(p).len(),
    ensures
        ch.kids(p)[i] != p,
        ch.depth@[ch.kids(p)[i]] == ch.depth@[p] + 1,
{
    lemma_kid(ch, p, i);
    lemma_parent(ch, ch.kids(p)[i]);
}

/// Two attached nodes' children sequences do not share a node.
pub proof fn lemma_kids_disjoint(ch: Chapter, p: u32, q: u32, i: int, j: int)
    requires
        ch.wf(),
        ch.live(p),
        ch.live(q),
        0 <= i < ch.kids(p).len(),
        0 <= j < ch.kids(q).len(),
        ch.kids(p)[i] == ch.kids(q)[j],
    ensures
        p == q,
{
    lemma_kid(ch, p, i);
    lemma_kid(ch, q, j);
}

/// Two arenas with the same links (for the first `a.nodes@.len()` nodes) and
/// the same ghost shape.
pub open spec fn links_same(a: Chapter, b: Chapter) -> bool {
    &&& a.nodes@.len() <= b.nodes@.len()
    &&& b.nodes@.len() <= u32::MAX
    &&& b.tree@ == a.tree@
    &&& b.depth@ == a.depth@
    &&& forall|x: u32|
        (x as int) < a.nodes@.len() ==> (#[trigger] b.nd(x)).parent == a.nd(x).parent
            && b.nd(x).first_child == a.nd(x).first_child && b.nd(x).next_sibling == a.nd(
            x,
        ).next_sibling
}

/// Well-formedness only reads the links and the ghost shape.
pub proof fn lemma_wf_frame(a: Chapter, b: Chapter)
    requires
        a.wf(),
        links_same(a, b),
    ensures
        b.wf(),
{
    reveal(Chapter::wf_links);
    reveal(Chapter::wf_kids);
    reveal(Chapter::wf_parents);
    assert forall|p: u32| #[trigger] b.live(p) implies {
        &&& (p as int) < b.nodes@.len()
        &&& b.chain_ok(p)
        &&& b.kids(p).no_duplicates()
    } by {
        assert(a.live(p));
        assert(a.chain_ok(p));
        assert(b.nd(p).first_child == a.nd(p).first_child);
        let s = b.kids(p);
        assert forall|i: int| 0 <= i < s.len() implies (#[trigger] b.nd(s[i])).next_sibling == (if i
            + 1 < s.len() {
            some_id(s[i + 1])
        } else {
            None::<NodeId>
        }) by {
            assert(a.live(a.kids(p)[i]));
            assert(a.nd(s[i]).next_sibling == b.nd(s[i]).next_sibling);
        }
    }
    assert forall|p: u32, i: int|
        #![trigger b.kids(p)[i]]
        b.live(p) && 0 <= i < b.kids(p).len() implies {
            &&& b.kids(p)[i] != 0
            &&& b.live(b.kids(p)[i])
            &&& b.nd(b.kids(p)[i]).parent == some_id(p)
        } by {
        assert(a.kids(p)[i] == b.kids(p)[i]);
        assert(a.live(a.kids(p)[i]));
    }
    assert forall|c: u32| #[trigger] b.live(c) && c != 0 implies b.parent_ok(c) by {
        assert(a.live(c));
        assert(a.parent_ok(c));
    }
}

/// A duplicate-free sequence of indices below `n` has at most `n` elements.
pub proof fn lemma_distinct_bounded(s: Seq<u32>, n: nat)
    requires
        s.no_duplicates(),
        forall|i: int| 0 <= i < s.len() ==> (s[i] as int) < n,
    ensures
        s.len() <= n,
    decreases n,
{
    if n == 0 {
        if s.len() > 0 {
            assert((s[0] as int) < 0);
        }
    } else {
        let top = (n - 1) as u32;
        if s.contains(top) {
            let k = s.index_of(top);
            let t = s.remove(k);
            assert forall|i: int| 0 <= i < t.len() implies (t[i] as int) < n - 1 by {
                if i < k {
                    assert(t[i] == s[i]);
                } else {
                    assert(t[i] == s[i + 1]);
                }
            }
            assert forall|i: int, j: int| 0 <= i < t.len() && 0 <= j < t.len() && i != j implies t[i] != t[j] by {
                let ii = if i < k { i } else { i + 1 };
                let jj = if j < k { j } else { j + 1 };
                assert(t[i] == s[ii]);
                assert(t[j] == s[jj]);
            }
            lemma_distinct_bounded(t, (n - 1) as nat);
        } else {
            assert forall|i: int| 0 <= i < s.len() implies (s[i] as int) < n - 1 by {
                assert(s[i] != top);
            }
            lemma_distinct_bounded(s, (n - 1) as nat);
        }
    }
}

/// `b` is `a` with the fresh node `c` linked in as the last child of `p`.
pub open spec fn append_step(a: Chapter, b: Chapter, p: u32, c: u32) -> bool {
    let s = a.kids(p);
    &&& a.wf()
    &&& a.live(p)
    &&& (c as int) < a.nodes@.len()
    &&& !a.live(c)
    &&& c != 0
    &&& a.nd(c).first_child is None
    &&& b.nodes@.len() == a.nodes@.len()
    &&& b.tree@ == a.tree@.insert(p, s.push(c)).insert(c, Seq::<u32>::empty())
    &&& b.depth@ == a.depth@.insert(c, a.depth@[p] + 1)
    &&& b.nd(c).parent == some_id(p)
    &&& b.nd(c).next_sibling is None
    &&& b.nd(c).first_child is None
    &&& (s.len() == 0 ==> b.nd(p).first_child == some_id(c))
    &&& (s.len() > 0 ==> b.nd(p).first_child == a.nd(p).first_child)
    &&& b.nd(p).parent == a.nd(p).parent
    &&& b.nd(p).next_sibling == a.nd(p).next_sibling
    &&& (s.len() > 0 ==> b.nd(s.last()).next_sibling == some_id(c))
    &&& (s.len() > 0 ==> b.nd(s.last()).parent == a.nd(s.last()).parent)
    &&& (s.len() > 0 ==> b.nd(s.last()).first_child == a.nd(s.last()).first_child)
    &&& forall|x: u32|
        #![trigger b.nd(x)]
        (x as int) < a.nodes@.len() && x != p && x != c && (s.len() == 0 || x != s.last())
            ==> b.nd(x).parent == a.nd(x).parent && b.nd(x).first_child == a.nd(x).first_child
            && b.nd(x).next_sibling == a.nd(x).next_sibling
}

/// Appending a fresh node keeps the chapter well formed.
proof fn lemma_append_wf(a: Chapter, b: Chapter, p: u32, c: u32)
    requires
        append_step(a, b, p, c),
    ensures
        b.wf(),
{
    lemma_append_links(a, b, p, c);
    lemma_append_kids(a, b, p, c);
    lemma_append_parents(a, b, p, c);
}

/// Links of an unchanged node `q` of `a`.
proof fn lemma_append_other(a: Chapter, b: Chapter, p: u32, c: u32, x: u32)
    requires
        append_step(a, b, p, c),
        a.live(x),
    ensures
        x != c,
        x != p && a.nd(x).parent != some_id(p) ==> b.nd(x) .parent == a.nd(x).parent
            && b.nd(x).first_child == a.nd(x).first_child && b.nd(x).next_sibling == a.nd(x).next_sibling,
{
    lemma_live(a, x);
    let s = a.kids(p);
    if s.len() > 0 {
        lemma_kid(a, p, s.len() - 1);
    }
}

proof fn lemma_append_links(a: Chapter, b: Chapter, p: u32, c: u32)
    requires
        append_step(a, b, p, c),
    ensures
        b.wf_links(),
{
    let s = a.kids(p);
    let s2 = s.push(c);
    lemma_live(a, p);
    assert forall|q: u32| #[trigger] b.live(q) implies {
        &&& (q as int) < b.nodes@.len()
        &&& b.chain_ok(q)
        &&& b.kids(q).no_duplicates()
    } by {
        if q == c {
        } else if q == p {
            assert(b.kids(p) == s2);
            assert forall|i: int| 0 <= i < s2.len() implies (#[trigger] b.nd(s2[i])).next_sibling == (if i
                + 1 < s2.len() {
                some_id(s2[i + 1])
            } else {
                None::<NodeId>
            }) by {
                if i < s.len() {
                    assert(s2[i] == s[i]);
                    lemma_kid(a, p, i);
                    lemma_not_own_kid(a, p, i);
                    assert(a.nd(s[i]).next_sibling == (if i + 1 < s.len() { some_id(s[i + 1]) } else { None::<NodeId> }));
                    if i + 1 < s.len() {
                        assert(s[i] != s.last());
                        assert(s[i] != c);
                        assert(b.nd(s[i]).next_sibling == a.nd(s[i]).next_sibling);
                        assert(s2[i + 1] == s[i + 1]);
                    } else {
                        assert(s[i] == s.last());
                        assert(s2[i + 1] == c);
                    }
                } else {
                    assert(s2[i] == c);
                }
            }
            assert forall|i: int, j: int| 0 <= i < s2.len() && 0 <= j < s2.len() && i != j implies s2[i] != s2[j] by {
                if i < s.len() && j < s.len() {
                } else if i < s.len() {
                    lemma_kid(a, p, i);
                } else if j < s.len() {
                    lemma_kid(a, p, j);
                }
            }
        } else {
            lemma_live(a, q);
            assert(b.kids(q) == a.kids(q));
            let t = a.kids(q);
            lemma_append_other(a, b, p, c, q);
            if q != 0 {
                lemma_parent(a, q);
            }
            assert(a.nd(q).parent != some_id(p) || q != p);
            assert forall|i: int| 0 <= i < t.len() implies (#[trigger] b.nd(t[i])).next_sibling == (if i
                + 1 < t.len() {
                some_id(t[i + 1])
            } else {
                None::<NodeId>
            }) by {
                lemma_kid(a, q, i);
                lemma_not_own_kid(a, q, i);
                lemma_append_other(a, b, p, c, t[i]);
                if t[i] == p {
                    lemma_not_own_kid(a, q, i);
                }
                if s.len() > 0 && t[i] == s.last() {
                    lemma_kids_disjoint(a, p, q, s.len() - 1, i);
                }
            }
            if t.len() > 0 {
                lemma_kid(a, q, 0);
            }
        }
    }
    reveal(Chapter::wf_links);
}

proof fn lemma_append_kids(a: Chapter, b: Chapter, p: u32, c: u32)
    requires
        append_step(a, b, p, c),
    ensures
        b.wf_kids(),
{
    let s = a.kids(p);
    let s2 = s.push(c);
    assert forall|q: u32, i: int|
        #![trigger b.kids(q)[i]]
        b.live(q) && 0 <= i < b.kids(q).len() implies {
            &&& b.kids(q)[i] != 0
            &&& b.live(b.kids(q)[i])
            &&& b.nd(b.kids(q)[i]).parent == some_id(q)
        } by {
        if q == c {
        } else if q == p {
            if i < s.len() {
                assert(s2[i] == s[i]);
                lemma_kid(a, p, i);
                lemma_not_own_kid(a, p, i);
                lemma_append_other(a, b, p, c, s[i]);
                if s[i] != s.last() {
                    assert(b.nd(s[i]).parent == a.nd(s[i]).parent);
                }
            }
        } else {
            let x = a.kids(q)[i];
            lemma_kid(a, q, i);
            lemma_not_own_kid(a, q, i);
            lemma_append_other(a, b, p, c, x);
            if s.len() > 0 && x == s.last() {
                lemma_kids_disjoint(a, p, q, s.len() - 1, i);
            }
            if x == p {
                assert(b.nd(p).parent == a.nd(p).parent);
            } else if s.len() == 0 || x != s.last() {
                assert(b.nd(x).parent == a.nd(x).parent);
            }
        }
    }
    reveal(Chapter::wf_kids);
}

proof fn lemma_append_parents(a: Chapter, b: Chapter, p: u32, c: u32)
    requires
        append_step(a, b, p, c),
    ensures
        b.wf_parents(),
{
    let s = a.kids(p);
    assert forall|x: u32| #[trigger] b.live(x) && x != 0 implies b.parent_ok(x) by {
        if x == c {
            assert(b.kids(p).contains(c)) by {
                assert(b.kids(p)[s.len() as int] == c);
            }
        } else {
            lemma_parent(a, x);
            lemma_live(a, x);
            let q = a.nd(x).parent.unwrap();
            assert(q.0 != c);
            if x == p {
                if q.0 == p {
                    assert(a.depth@[p] == a.depth@[p] + 1);
                }
                assert(b.nd(p).parent == a.nd(p).parent);
                if q.0 != p {
                    assert(b.kids(q.0) == a.kids(q.0));
                }
            } else {
                if s.len() > 0 && x == s.last() {
                    lemma_kid(a, p, s.len() - 1);
                    assert(b.kids(p).contains(x)) by {
                        assert(b.kids(p)[s.len() - 1] == x);
                    }
                } else {
                    assert(b.nd(x).parent == a.nd(x).parent);
                    if q.0 == p {
                        let k = a.kids(p).index_of(x);
                        assert(b.kids(p)[k] == x);
                    } else {
                        assert(b.kids(q.0) == a.kids(q.0));
                    }
                }
            }
        }
    }
    reveal(Chapter::wf_parents);
}

} // verus!
