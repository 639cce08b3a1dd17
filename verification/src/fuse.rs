//! List fuser (fragmented list repair).
//!
//! Converters often emit a separate `<ul>` for every `<li>`:
//! `<ul><li>Item 1</li></ul><ul><li>Item 2</li></ul>`. That breaks ordered
//! list numbering, margins and the semantic structure, so adjacent lists of
//! the same kind and style, neither carrying semantic attributes, are fused by
//! moving the children of the second list into the first.

use vstd::prelude::*;
use crate::links::NodeId;
use crate::chapter::{Chapter, Node, Role, some_id, lemma_live, lemma_kid, lemma_parent, lemma_not_own_kid, lemma_kids_disjoint, lemma_distinct_bounded};

verus! {

/// Both roles are ordered lists, or both are unordered lists.
pub open spec fn same_list_kind(r1: Role, r2: Role) -> bool {
    (r1 == Role::OrderedList && r2 == Role::OrderedList) || (r1 == Role::UnorderedList && r2
        == Role::UnorderedList)
}

/// Nodes `a` and `b` of `ch` are lists that may be fused: the same list
/// kind, the same style, and neither carries a semantic attribute (an id is a
/// link target that would dangle; a list start encodes numbering).
pub open spec fn fusable(ch: Chapter, a: u32, b: u32) -> bool {
    &&& (a as int) < ch.nodes@.len()
    &&& (b as int) < ch.nodes@.len()
    &&& same_list_kind(ch.nd(a).role, ch.nd(b).role)
    &&& ch.nd(a).style == ch.nd(b).style
    &&& !ch.semantics.has_attrs(a)
    &&& !ch.semantics.has_attrs(b)
}

/// The fusability relation of `ch`, as a function value.
pub open spec fn fus_of(ch: Chapter) -> spec_fn(u32, u32) -> bool {
    |x: u32, y: u32| fusable(ch, x, y)
}

/// Position (in the sibling sequence `s`) of the list that the sibling at
/// position `i` ends up in when runs of fusable siblings are merged greedily
/// from the left: a sibling joins the list that absorbed its predecessor when
/// it is fusable with that list, and otherwise stays on its own.
pub open spec fn head_idx(s: Seq<u32>, fus: spec_fn(u32, u32) -> bool, i: int) -> int
    decreases i,
{
    if i <= 0 {
        0
    } else {
        let h = head_idx(s, fus, i - 1);
        if fus(s[h], s[i]) {
            h
        } else {
            i
        }
    }
}

/// The siblings among the first `m` of `s` that survive the fusion, in order.
pub open spec fn survivors(s: Seq<u32>, fus: spec_fn(u32, u32) -> bool, m: int) -> Seq<u32>
    decreases m,
{
    if m <= 0 {
        Seq::empty()
    } else {
        survivors(s, fus, m - 1) + if head_idx(s, fus, m - 1) == m - 1 {
            seq![s[m - 1]]
        } else {
            Seq::<u32>::empty()
        }
    }
}

/// The children that the surviving list at position `k` holds after fusing
/// the first `m` siblings of `s`, where `tree` gives each sibling's own
/// children: the children of every sibling merged into it, in order.
pub open spec fn gathered(
    tree: Map<u32, Seq<u32>>,
    s: Seq<u32>,
    fus: spec_fn(u32, u32) -> bool,
    k: int,
    m: int,
) -> Seq<u32>
    decreases m,
{
    if m <= 0 {
        Seq::empty()
    } else {
        gathered(tree, s, fus, k, m - 1) + if head_idx(s, fus, m - 1) == k {
            tree[s[m - 1]]
        } else {
            Seq::<u32>::empty()
        }
    }
}

/// The sibling at position `j` of `s` is absorbed by an earlier list.
pub open spec fn absorbed(s: Seq<u32>, fus: spec_fn(u32, u32) -> bool, j: int) -> bool {
    0 <= j < s.len() && head_idx(s, fus, j) != j
}

pub proof fn lemma_head_idx_bounds(s: Seq<u32>, fus: spec_fn(u32, u32) -> bool, i: int)
    requires
        0 <= i,
    ensures
        0 <= head_idx(s, fus, i) <= i,
        i > 0 ==> head_idx(s, fus, i) == i || head_idx(s, fus, i) == head_idx(s, fus, i - 1),
    decreases i,
{
    if i > 0 {
        lemma_head_idx_bounds(s, fus, i - 1);
    }
}

/// Positions from `i` on are merged into lists at position `head_idx(i)` or later.
pub proof fn lemma_head_idx_mono(s: Seq<u32>, fus: spec_fn(u32, u32) -> bool, i: int, j: int)
    requires
        0 <= i <= j,
    ensures
        head_idx(s, fus, i) <= head_idx(s, fus, j),
    decreases j - i,
{
    if i < j {
        lemma_head_idx_mono(s, fus, i, j - 1);
        lemma_head_idx_bounds(s, fus, j);
        lemma_head_idx_bounds(s, fus, j - 1);
    }
}

/// A head is its own head.
pub proof fn lemma_head_of_head(s: Seq<u32>, fus: spec_fn(u32, u32) -> bool, i: int)
    requires
        0 <= i,
    ensures
        head_idx(s, fus, head_idx(s, fus, i)) == head_idx(s, fus, i),
    decreases i,
{
    lemma_head_idx_bounds(s, fus, i);
    if i > 0 && head_idx(s, fus, i) != i {
        lemma_head_of_head(s, fus, i - 1);
    }
}

/// The last survivor among the first `m` siblings is the head of `m - 1`.
pub proof fn lemma_survivors_last(s: Seq<u32>, fus: spec_fn(u32, u32) -> bool, m: int)
    requires
        1 <= m,
    ensures
        survivors(s, fus, m).len() >= 1,
        survivors(s, fus, m).last() == s[head_idx(s, fus, m - 1)],
        survivors(s, fus, m).len() <= m,
    decreases m,
{
    lemma_head_idx_bounds(s, fus, m - 1);
    assert(survivors(s, fus, 0) == Seq::<u32>::empty());
    if m > 1 {
        lemma_survivors_last(s, fus, m - 1);
    }
}

/// A sibling at a position at or past `m` never lands in a list before `m`.
pub proof fn lemma_gathered_stable(
    tree: Map<u32, Seq<u32>>,
    s: Seq<u32>,
    fus: spec_fn(u32, u32) -> bool,
    k: int,
    m: int,
    m2: int,
)
    requires
        0 <= k < m <= m2,
        head_idx(s, fus, m - 1) > k,
    ensures
        gathered(tree, s, fus, k, m2) == gathered(tree, s, fus, k, m),
    decreases m2 - m,
{
    if m2 > m {
        lemma_gathered_stable(tree, s, fus, k, m, m2 - 1);
        lemma_head_idx_mono(s, fus, m - 1, m2 - 1);
        assert(gathered(tree, s, fus, k, m2) == gathered(tree, s, fus, k, m2 - 1) + Seq::<u32>::empty());
    }
}

/// A fresh head gathers exactly its own children first.
pub proof fn lemma_gathered_fresh(tree: Map<u32, Seq<u32>>, s: Seq<u32>, fus: spec_fn(u32, u32) -> bool, m: int)
    requires
        0 <= m,
        head_idx(s, fus, m) == m,
    ensures
        gathered(tree, s, fus, m, m + 1) == tree[s[m]],
{
    assert forall|m2: int| 0 <= m2 <= m implies gathered(tree, s, fus, m, m2) == Seq::<u32>::empty() by {
        lemma_gathered_none(tree, s, fus, m, m2);
    }
    assert(gathered(tree, s, fus, m, m + 1) == gathered(tree, s, fus, m, m) + tree[s[m]]);
}

proof fn lemma_gathered_none(tree: Map<u32, Seq<u32>>, s: Seq<u32>, fus: spec_fn(u32, u32) -> bool, k: int, m: int)
    requires
        0 <= m <= k,
    ensures
        gathered(tree, s, fus, k, m) == Seq::<u32>::empty(),
    decreases m,
{
    if m > 0 {
        lemma_gathered_none(tree, s, fus, k, m - 1);
        lemma_head_idx_bounds(s, fus, m - 1);
    }
}

/// `gathered` reads the children map only at the siblings of `s`.
pub proof fn lemma_gathered_congr(
    t1: Map<u32, Seq<u32>>,
    t2: Map<u32, Seq<u32>>,
    s: Seq<u32>,
    fus: spec_fn(u32, u32) -> bool,
    k: int,
    m: int,
)
    requires
        m <= s.len(),
        forall|j: int| 0 <= j < m ==> t1[#[trigger] s[j]] == t2[s[j]],
    ensures
        gathered(t1, s, fus, k, m) == gathered(t2, s, fus, k, m),
    decreases m,
{
    if m > 0 {
        lemma_gathered_congr(t1, t2, s, fus, k, m - 1);
        assert(t1[s[m - 1]] == t2[s[m - 1]]);
    }
}

/// Whether the node `id` carries any semantic attribute.
fn has_semantic_attrs(chapter: &Chapter, id: NodeId) -> (r: bool)
    ensures
        r == chapter.semantics.has_attrs(id.0),
{
    chapter.semantics.has_any(id)
}

/// Check if two adjacent nodes are lists that can be fused.
fn can_fuse_lists(chapter: &Chapter, left_id: NodeId, right_id: NodeId) -> (r: bool)
    ensures
        r == fusable(*chapter, left_id.0, right_id.0),
{
    let (left, right) = match (chapter.node(left_id), chapter.node(right_id)) {
        (Some(l), Some(r)) => (l, r),
        _ => return false,
    };
    // Must be same list type
    let same_kind = match (left.role, right.role) {
        (Role::OrderedList, Role::OrderedList) => true,
        (Role::UnorderedList, Role::UnorderedList) => true,
        _ => false,
    };
    if !same_kind {
        return false;
    }
    // Must have the same style: fusing lists with different presentation
    // would silently change how the survivor's items render.
    if left.style.0 != right.style.0 {
        return false;
    }
    // Neither may carry semantic attributes: an id is a link target that
    // would dangle, and a list start encodes numbering that fusing would
    // destroy.
    if has_semantic_attrs(chapter, left_id) || has_semantic_attrs(chapter, right_id) {
        return false;
    }
    true
}


/// `b` is `a` after fusing the children of `p` at positions `i` and `i + 1`:
/// the right list's children move (re-parented) to the end of the left list,
/// and the right list is unlinked from the sibling chain.
pub open spec fn pair_step(a: Chapter, b: Chapter, p: u32, i: int) -> bool {
    let kp = a.kids(p);
    let left = kp[i];
    let right = kp[i + 1];
    let l = a.kids(left);
    let r = a.kids(right);
    &&& a.wf()
    &&& a.live(p)
    &&& 0 <= i
    &&& i + 1 < kp.len()
    &&& b.nodes@.len() == a.nodes@.len()
    &&& b.depth@ == a.depth@
    &&& b.tree@ == a.tree@.remove(right).insert(p, kp.remove(i + 1)).insert(left, l + r)
    &&& forall|x: u32|
        #![trigger b.nd(x)]
        (x as int) < a.nodes@.len() ==> {
            &&& b.nd(x).parent == (if r.contains(x) {
                some_id(left)
            } else {
                a.nd(x).parent
            })
            &&& b.nd(x).first_child == (if x == left && l.len() == 0 && r.len() > 0 {
                some_id(r[0])
            } else {
                a.nd(x).first_child
            })
            &&& b.nd(x).next_sibling == (if x == left {
                a.nd(right).next_sibling
            } else if l.len() > 0 && x == l.last() && r.len() > 0 {
                some_id(r[0])
            } else {
                a.nd(x).next_sibling
            })
        }
}

/// Facts about the two fused siblings and their children.
proof fn lemma_pair_facts(a: Chapter, p: u32, i: int)
    requires
        a.wf(),
        a.live(p),
        0 <= i,
        i + 1 < a.kids(p).len(),
    ensures
        ({
            let kp = a.kids(p);
            let left = kp[i];
            let right = kp[i + 1];
            let l = a.kids(left);
            let r = a.kids(right);
            &&& left != right
            &&& left != p && right != p
            &&& left != 0 && right != 0
            &&& a.live(left) && a.live(right)
            &&& (left as int) < a.nodes@.len() && (right as int) < a.nodes@.len()
            &&& a.depth@[left] == a.depth@[p] + 1
            &&& a.depth@[right] == a.depth@[p] + 1
            &&& l.no_duplicates() && r.no_duplicates()
            &&& forall|j: int| 0 <= j < r.len() ==> {
                &&& #[trigger] r[j] != left
                &&& r[j] != right
                &&& r[j] != p
                &&& r[j] != 0
                &&& a.live(r[j])
                &&& (r[j] as int) < a.nodes@.len()
                &&& a.nd(r[j]).parent == some_id(right)
                &&& a.depth@[r[j]] == a.depth@[p] + 2
                &&& !l.contains(r[j])
                &&& !kp.contains(r[j])
            }
            &&& forall|j: int| 0 <= j < l.len() ==> {
                &&& #[trigger] l[j] != left
                &&& l[j] != right
                &&& l[j] != p
                &&& a.live(l[j])
                &&& (l[j] as int) < a.nodes@.len()
                &&& a.nd(l[j]).parent == some_id(left)
                &&& !kp.contains(l[j])
            }
        }),
{
    let kp = a.kids(p);
    let left = kp[i];
    let right = kp[i + 1];
    let l = a.kids(left);
    let r = a.kids(right);
    lemma_live(a, p);
    lemma_kid(a, p, i);
    lemma_kid(a, p, i + 1);
    lemma_not_own_kid(a, p, i);
    lemma_not_own_kid(a, p, i + 1);
    lemma_live(a, left);
    lemma_live(a, right);
    assert forall|j: int| 0 <= j < r.len() implies {
        &&& #[trigger] r[j] != left
        &&& r[j] != right
        &&& r[j] != p
        &&& r[j] != 0
        &&& a.live(r[j])
        &&& (r[j] as int) < a.nodes@.len()
        &&& a.nd(r[j]).parent == some_id(right)
        &&& a.depth@[r[j]] == a.depth@[p] + 2
        &&& !l.contains(r[j])
        &&& !kp.contains(r[j])
    } by {
        lemma_kid(a, right, j);
        lemma_not_own_kid(a, right, j);
        if l.contains(r[j]) {
            let k = l.index_of(r[j]);
            lemma_kids_disjoint(a, left, right, k, j);
        }
        if kp.contains(r[j]) {
            let k = kp.index_of(r[j]);
            lemma_kids_disjoint(a, p, right, k, j);
        }
    }
    assert forall|j: int| 0 <= j < l.len() implies {
        &&& #[trigger] l[j] != left
        &&& l[j] != right
        &&& l[j] != p
        &&& a.live(l[j])
        &&& (l[j] as int) < a.nodes@.len()
        &&& a.nd(l[j]).parent == some_id(left)
        &&& !kp.contains(l[j])
    } by {
        lemma_kid(a, left, j);
        lemma_not_own_kid(a, left, j);
        if kp.contains(l[j]) {
            let k = kp.index_of(l[j]);
            lemma_kids_disjoint(a, p, left, k, j);
        }
    }
}

/// Fusing two sibling lists keeps the chapter well formed.
proof fn lemma_pair_wf(a: Chapter, b: Chapter, p: u32, i: int)
    requires
        pair_step(a, b, p, i),
    ensures
        b.wf(),
{
    lemma_pair_facts(a, p, i);
    lemma_pair_links(a, b, p, i);
    lemma_pair_kids(a, b, p, i);
    lemma_pair_parents(a, b, p, i);
}

proof fn lemma_pair_links(a: Chapter, b: Chapter, p: u32, i: int)
    requires
        pair_step(a, b, p, i),
    ensures
        b.wf_links(),
{
    assert forall|q: u32| #[trigger] b.live(q) implies {
        &&& (q as int) < b.nodes@.len()
        &&& b.chain_ok(q)
        &&& b.kids(q).no_duplicates()
    } by {
        if q == a.kids(p)[i] {
            lemma_pair_chain_left(a, b, p, i, q);
        } else if q == p {
            lemma_pair_chain_parent(a, b, p, i, q);
        } else {
            lemma_pair_chain_other(a, b, p, i, q);
        }
    }
    reveal(Chapter::wf_links);
}

#[verifier::spinoff_prover]
#[verifier::rlimit(60)]
proof fn lemma_pair_chain_left(a: Chapter, b: Chapter, p: u32, i: int, q: u32)
    requires
        pair_step(a, b, p, i),
        b.live(q),
        q == a.kids(p)[i],
    ensures
        (q as int) < b.nodes@.len(),
        b.chain_ok(q),
        b.kids(q).no_duplicates(),
{
    let kp = a.kids(p);
    let left = kp[i];
    let right = kp[i + 1];
    let l = a.kids(left);
    let r = a.kids(right);
    lemma_pair_facts(a, p, i);
    lemma_live(a, p);
    lemma_live(a, left);
    lemma_live(a, right);
    lemma_live(a, q);
        let lr = l + r;
        assert(b.kids(q) == lr);
        if l.len() > 0 {
            assert(lr[0] == l[0]);
        }
        assert forall|k: int| 0 <= k < lr.len() implies (#[trigger] b.nd(lr[k])).next_sibling == (if k
            + 1 < lr.len() {
            some_id(lr[k + 1])
        } else {
            None::<NodeId>
        }) by {
            if k < l.len() {
                assert(lr[k] == l[k]);
                assert(a.nd(l[k]).next_sibling == (if k + 1 < l.len() { some_id(l[k + 1]) } else { None::<NodeId> }));
                if k + 1 < l.len() {
                    assert(l[k] != l.last());
                    assert(lr[k + 1] == l[k + 1]);
                } else if r.len() > 0 {
                    assert(lr[k + 1] == r[0]);
                }
            } else {
                let j = k - l.len();
                assert(lr[k] == r[j]);
                assert(r[j] != left);
                assert(a.nd(r[j]).next_sibling == (if j + 1 < r.len() { some_id(r[j + 1]) } else { None::<NodeId> }));
                if l.len() > 0 {
                    assert(r[j] != l.last()) by {
                        assert(l.contains(l.last()));
                    }
                }
                if j + 1 < r.len() {
                    assert(lr[k + 1] == r[j + 1]);
                }
            }
        }
        assert forall|x: int, y: int| 0 <= x < lr.len() && 0 <= y < lr.len() && x != y implies lr[x] != lr[y] by {
            if x < l.len() && y >= l.len() {
                assert(!l.contains(r[y - l.len()]));
            }
            if y < l.len() && x >= l.len() {
                assert(!l.contains(r[x - l.len()]));
            }
        }
}

#[verifier::spinoff_prover]
#[verifier::rlimit(40)]
proof fn lemma_pair_chain_parent(a: Chapter, b: Chapter, p: u32, i: int, q: u32)
    requires
        pair_step(a, b, p, i),
        b.live(q),
        q == p,
    ensures
        (q as int) < b.nodes@.len(),
        b.chain_ok(q),
        b.kids(q).no_duplicates(),
{
    let kp = a.kids(p);
    let left = kp[i];
    let right = kp[i + 1];
    let l = a.kids(left);
    let r = a.kids(right);
    lemma_live(a, p);
    lemma_kid(a, p, i);
    lemma_kid(a, p, i + 1);
    lemma_not_own_kid(a, p, i);
    lemma_not_own_kid(a, p, i + 1);
    lemma_live(a, right);
    if l.len() > 0 {
        lemma_kid(a, left, l.len() - 1);
        lemma_not_own_kid(a, left, l.len() - 1);
    }
        let kq = kp.remove(i + 1);
        assert(b.kids(q) == kq);
        assert(kq[0] == kp[0]);
        assert forall|k: int| 0 <= k < kq.len() implies (#[trigger] b.nd(kq[k])).next_sibling == (if k
            + 1 < kq.len() {
            some_id(kq[k + 1])
        } else {
            None::<NodeId>
        }) by {
            let kk = if k <= i { k } else { k + 1 };
            assert(kq[k] == kp[kk]);
            lemma_kid(a, p, kk);
            lemma_not_own_kid(a, p, kk);
            assert(a.nd(kp[kk]).next_sibling == (if kk + 1 < kp.len() { some_id(kp[kk + 1]) } else { None::<NodeId> }));
            assert(a.nd(right).next_sibling == (if i + 2 < kp.len() { some_id(kp[i + 2]) } else { None::<NodeId> }));
            if l.len() > 0 {
                assert(kp[kk] != l.last()) by {
                    if kp[kk] == l.last() {
                        assert(a.depth@[kp[kk]] == a.depth@[p] + 1);
                        assert(a.depth@[l.last()] == a.depth@[left] + 1);
                    }
                }
            }
            if k + 1 < kq.len() {
                let kn = if k + 1 <= i { k + 1 } else { k + 2 };
                assert(kq[k + 1] == kp[kn]);
            }
        }
        assert forall|x: int, y: int| 0 <= x < kq.len() && 0 <= y < kq.len() && x != y implies kq[x] != kq[y] by {
            let xx = if x <= i { x } else { x + 1 };
            let yy = if y <= i { y } else { y + 1 };
            assert(kq[x] == kp[xx]);
            assert(kq[y] == kp[yy]);
        }
}

proof fn lemma_pair_chain_other(a: Chapter, b: Chapter, p: u32, i: int, q: u32)
    requires
        pair_step(a, b, p, i),
        b.live(q),
        q != a.kids(p)[i] && q != p,
    ensures
        (q as int) < b.nodes@.len(),
        b.chain_ok(q),
        b.kids(q).no_duplicates(),
{
    let kp = a.kids(p);
    let left = kp[i];
    let right = kp[i + 1];
    let l = a.kids(left);
    let r = a.kids(right);
    lemma_pair_facts(a, p, i);
    lemma_live(a, p);
    lemma_live(a, left);
    lemma_live(a, right);
    lemma_live(a, q);
        let t = a.kids(q);
        assert(b.kids(q) == t);
        assert(q != right);
        assert forall|k: int| 0 <= k < t.len() implies (#[trigger] b.nd(t[k])).next_sibling == (if k
            + 1 < t.len() {
            some_id(t[k + 1])
        } else {
            None::<NodeId>
        }) by {
            lemma_kid(a, q, k);
            if t[k] == left {
                lemma_kids_disjoint(a, q, p, k, i);
            }
            if l.len() > 0 && t[k] == l.last() {
                lemma_kids_disjoint(a, q, left, k, l.len() - 1);
            }
        }
}

#[verifier::spinoff_prover]
#[verifier::rlimit(30)]
proof fn lemma_pair_kids(a: Chapter, b: Chapter, p: u32, i: int)
    requires
        pair_step(a, b, p, i),
    ensures
        b.wf_kids(),
{
    let kp = a.kids(p);
    let left = kp[i];
    let right = kp[i + 1];
    let l = a.kids(left);
    let r = a.kids(right);
    lemma_pair_facts(a, p, i);
    assert forall|q: u32, k: int|
        #![trigger b.kids(q)[k]]
        b.live(q) && 0 <= k < b.kids(q).len() implies {
            &&& b.kids(q)[k] != 0
            &&& b.live(b.kids(q)[k])
            &&& b.nd(b.kids(q)[k]).parent == some_id(q)
        } by {
        if q == left {
            let lr = l + r;
            if k < l.len() {
                assert(lr[k] == l[k]);
                lemma_kid(a, left, k);
                assert(!r.contains(l[k])) by {
                    if r.contains(l[k]) {
                        let j = r.index_of(l[k]);
                        assert(!l.contains(r[j]));
                    }
                }
            } else {
                assert(lr[k] == r[k - l.len()]);
                assert(r.contains(r[k - l.len()]));
            }
        } else if q == p {
            let kq = kp.remove(i + 1);
            let kk = if k <= i { k } else { k + 1 };
            assert(kq[k] == kp[kk]);
            lemma_kid(a, p, kk);
            assert(!r.contains(kp[kk])) by {
                if r.contains(kp[kk]) {
                    let j = r.index_of(kp[kk]);
                    assert(!kp.contains(r[j]));
                }
            }
            lemma_live(a, p);
        } else {
            let t = a.kids(q);
            lemma_kid(a, q, k);
            assert(q != right);
            if t[k] == right {
                lemma_kids_disjoint(a, q, p, k, i + 1);
            }
            assert(!r.contains(t[k])) by {
                if r.contains(t[k]) {
                    let j = r.index_of(t[k]);
                    lemma_kids_disjoint(a, q, right, k, j);
                }
            }
        }
    }
    reveal(Chapter::wf_kids);
}

#[verifier::spinoff_prover]
#[verifier::rlimit(30)]
proof fn lemma_pair_parents(a: Chapter, b: Chapter, p: u32, i: int)
    requires
        pair_step(a, b, p, i),
    ensures
        b.wf_parents(),
{
    let kp = a.kids(p);
    let left = kp[i];
    let right = kp[i + 1];
    let l = a.kids(left);
    let r = a.kids(right);
    lemma_pair_facts(a, p, i);
    assert forall|x: u32| #[trigger] b.live(x) && x != 0 implies b.parent_ok(x) by {
        lemma_parent(a, x);
        lemma_live(a, x);
        if r.contains(x) {
            let j = r.index_of(x);
            assert((l + r)[l.len() + j] == x);
        } else {
            let q = a.nd(x).parent.unwrap().0;
            assert(q != right);
            if q == p {
                let k = kp.index_of(x);
                assert(x != right);
                assert(k != i + 1);
                let kq = kp.remove(i + 1);
                let kk = if k <= i { k } else { k - 1 };
                assert(kq[kk] == x);
            } else if q == left {
                let k = l.index_of(x);
                assert((l + r)[k] == x);
            }
        }
    }
    reveal(Chapter::wf_parents);
}


/// Point the `parent` link of every node of the sibling chain `r` (which
/// starts at `first`) at `new_parent`; returns the last node of the chain.
fn reparent_children(
    chapter: &mut Chapter,
    first: Option<NodeId>,
    new_parent: NodeId,
    Ghost(r): Ghost<Seq<u32>>,
) -> (last: Option<NodeId>)
    requires
        r.no_duplicates(),
        forall|j: int| 0 <= j < r.len() ==> (#[trigger] r[j] as int) < old(chapter).nodes@.len(),
        first == (if r.len() > 0 { some_id(r[0]) } else { None::<NodeId> }),
        forall|j: int|
            0 <= j < r.len() ==> #[trigger] old(chapter).nd(r[j]).next_sibling == (if j + 1 < r.len() {
                some_id(r[j + 1])
            } else {
                None::<NodeId>
            }),
    ensures
        final(chapter).nodes@.len() == old(chapter).nodes@.len(),
        final(chapter).tree@ == old(chapter).tree@,
        final(chapter).depth@ == old(chapter).depth@,
        final(chapter).styles.styles@ == old(chapter).styles.styles@,
        final(chapter).semantics.ids@ == old(chapter).semantics.ids@,
        final(chapter).semantics.hrefs@ == old(chapter).semantics.hrefs@,
        final(chapter).semantics.list_starts@ == old(chapter).semantics.list_starts@,
        forall|x: u32|
            #![trigger final(chapter).nd(x)]
            (x as int) < old(chapter).nodes@.len() ==> final(chapter).nd(x) == (if r.contains(x) {
                Node { parent: Some(new_parent), ..old(chapter).nd(x) }
            } else {
                old(chapter).nd(x)
            }),
        last == (if r.len() == 0 { None::<NodeId> } else { some_id(r.last()) }),
{
    let ghost a = *chapter;
    let mut last: Option<NodeId> = None;
    let mut child_opt = first;
    let ghost mut k: int = 0;
    while child_opt.is_some()
        invariant
            0 <= k <= r.len(),
            r.no_duplicates(),
            forall|j: int| 0 <= j < r.len() ==> (#[trigger] r[j] as int) < a.nodes@.len(),
            forall|j: int|
                0 <= j < r.len() ==> #[trigger] a.nd(r[j]).next_sibling == (if j + 1 < r.len() {
                    some_id(r[j + 1])
                } else {
                    None::<NodeId>
                }),
            child_opt == (if k < r.len() { some_id(r[k]) } else { None::<NodeId> }),
            last == (if k == 0 { None::<NodeId> } else { some_id(r[k - 1]) }),
            chapter.nodes@.len() == a.nodes@.len(),
            chapter.tree@ == a.tree@,
            chapter.depth@ == a.depth@,
            chapter.styles.styles@ == a.styles.styles@,
            chapter.semantics.ids@ == a.semantics.ids@,
            chapter.semantics.hrefs@ == a.semantics.hrefs@,
            chapter.semantics.list_starts@ == a.semantics.list_starts@,
            forall|x: u32|
                #![trigger chapter.nd(x)]
                (x as int) < a.nodes@.len() ==> chapter.nd(x) == (if r.take(k).contains(x) {
                    Node { parent: Some(new_parent), ..a.nd(x) }
                } else {
                    a.nd(x)
                }),
        decreases r.len() - k,
    {
        let child_id = child_opt.unwrap();
        proof {
            assert(!r.take(k).contains(r[k])) by {
                if r.take(k).contains(r[k]) {
                    let j = r.take(k).index_of(r[k]);
                    assert(r[j] == r[k]);
                }
            }
            assert(chapter.nd(r[k]) == a.nd(r[k]));
        }
        let next_child = chapter.nodes[child_id.0 as usize].next_sibling;
        let ghost before = *chapter;
        chapter.set_parent(child_id.0, Some(new_parent));
        last = Some(child_id);
        child_opt = next_child;
        proof {
            assert(r.take(k + 1) == r.take(k).push(r[k]));
            assert forall|x: u32|
                #![trigger chapter.nd(x)]
                (x as int) < a.nodes@.len() implies chapter.nd(x) == (if r.take(k + 1).contains(x) {
                    Node { parent: Some(new_parent), ..a.nd(x) }
                } else {
                    a.nd(x)
                }) by {
                assert(before.nd(x) == (if r.take(k).contains(x) {
                    Node { parent: Some(new_parent), ..a.nd(x) }
                } else {
                    a.nd(x)
                }));
                if x == r[k] {
                    assert(r.take(k + 1).contains(x)) by {
                        assert(r.take(k + 1)[k] == x);
                    }
                } else {
                    assert(chapter.nd(x) == before.nd(x));
                    assert(r.take(k + 1).contains(x) == r.take(k).contains(x));
                }
            }
            k = k + 1;
        }
    }
    proof {
        assert(r.take(r.len() as int) == r);
    }
    last
}

/// Fuse two adjacent lists by moving children from right to left.
///
/// `left_tail` is the cached last child of the left list, if known from a
/// previous fusion into the same list. Returns the new tail of the left list
/// (`left_tail` itself when the right list is empty) so consecutive fusions
/// avoid re-walking its children.
#[verifier::spinoff_prover]
#[verifier::rlimit(60)]
fn fuse_list_pair(
    chapter: &mut Chapter,
    left_id: NodeId,
    right_id: NodeId,
    left_tail: Option<NodeId>,
    Ghost(p): Ghost<u32>,
    Ghost(i): Ghost<int>,
) -> (res: Option<NodeId>)
    requires
        old(chapter).wf(),
        old(chapter).live(p),
        0 <= i,
        i + 1 < old(chapter).kids(p).len(),
        old(chapter).kids(p)[i] == left_id.0,
        old(chapter).kids(p)[i + 1] == right_id.0,
        left_tail is None || (old(chapter).kids(left_id.0).len() > 0 && left_tail == some_id(
            old(chapter).kids(left_id.0).last(),
        )),
    ensures
        final(chapter).wf(),
        final(chapter).same_content(*old(chapter)),
        final(chapter).depth@ == old(chapter).depth@,
        final(chapter).tree@ == old(chapter).tree@.remove(right_id.0).insert(
            p,
            old(chapter).kids(p).remove(i + 1),
        ).insert(left_id.0, old(chapter).kids(left_id.0) + old(chapter).kids(right_id.0)),
        old(chapter).kids(right_id.0).len() == 0 ==> res == left_tail,
        old(chapter).kids(right_id.0).len() > 0 ==> res == some_id(old(chapter).kids(right_id.0).last()),
        final(chapter).nd(left_id.0).last_child == (if old(chapter).kids(right_id.0).len() == 0 {
            old(chapter).nd(left_id.0).last_child
        } else {
            res
        }),
        final(chapter).nd(left_id.0).next_sibling == old(chapter).nd(right_id.0).next_sibling,
        pair_step(*old(chapter), *final(chapter), p, i),
        forall|x: u32|
            #![trigger final(chapter).nd(x)]
            (x as int) < old(chapter).nodes@.len() ==> final(chapter).nd(x).last_child == (if x == left_id.0
                && old(chapter).kids(right_id.0).len() > 0 {
                some_id(old(chapter).kids(right_id.0).last())
            } else {
                old(chapter).nd(x).last_child
            }),
        res is None || ((old(chapter).kids(left_id.0) + old(chapter).kids(right_id.0)).len() > 0
            && res == some_id((old(chapter).kids(left_id.0) + old(chapter).kids(right_id.0)).last())),
{
    let ghost a = *chapter;
    let left = left_id.0;
    let right = right_id.0;
    let ghost l = a.kids(left);
    let ghost r = a.kids(right);
    proof {
        lemma_live(a, p);
        lemma_kid(a, p, i);
        lemma_kid(a, p, i + 1);
        lemma_live(a, right);
        lemma_live(a, left);
        if l.len() > 0 {
            lemma_kid(a, left, l.len() - 1);
        }
    }
    // Get right's children
    let right_first = chapter.nodes[right as usize].first_child;
    let right_next = chapter.nodes[right as usize].next_sibling;

    if right_first.is_none() {
        // Right list is empty, just unlink it
        chapter.set_next(left, right_next);
        chapter.tree = Ghost(a.tree@.remove(right).insert(p, a.kids(p).remove(i + 1)).insert(left, l + r));
        proof {
            assert(r.len() == 0);
            assert(l + r == l);
            assert(pair_step(a, *chapter, p, i)) by {
                lemma_pair_facts(a, p, i);
            }
            lemma_pair_wf(a, *chapter, p, i);
        }
        return left_tail;
    }
    // Left's last child (the cached tail when available).
    let left_last = match left_tail {
        Some(t) => Some(t),
        None => chapter.last_child_of(left),
    };

    // 1. Reparent all children of right to left, remembering the last one.
    proof {
        assert forall|j: int| 0 <= j < r.len() implies (#[trigger] r[j] as int) < a.nodes@.len() by {
            lemma_kid(a, right, j);
        }
        assert forall|j: int| 0 <= j < r.len() implies #[trigger] a.nd(r[j]).next_sibling == (if j + 1
            < r.len() {
            some_id(r[j + 1])
        } else {
            None::<NodeId>
        }) by {
            assert(a.chain_ok(right));
        }
    }
    let right_last = reparent_children(chapter, right_first, left_id, Ghost(r));
    let ghost mid = *chapter;

    // 2. Stitch: left_last.next_sibling = right_first
    match left_last {
        Some(last_id) => {
            chapter.set_next(last_id.0, right_first);
        },
        None => {
            // Left was empty, right's children become left's children
            chapter.set_first(left, right_first);
        },
    }
    // 3. Unlink right from the sibling chain
    chapter.set_next(left, right_next);
    chapter.set_last(left, right_last);
    chapter.tree = Ghost(a.tree@.remove(right).insert(p, a.kids(p).remove(i + 1)).insert(left, l + r));
    proof {
        assert(pair_step(a, *chapter, p, i)) by {
            lemma_pair_facts(a, p, i);
            assert(a.chain_ok(right));
            assert forall|x: u32|
                #![trigger chapter.nd(x)]
                (x as int) < a.nodes@.len() implies {
                    &&& chapter.nd(x).parent == (if r.contains(x) {
                        some_id(left)
                    } else {
                        a.nd(x).parent
                    })
                    &&& chapter.nd(x).first_child == (if x == left && l.len() == 0 && r.len() > 0 {
                        some_id(r[0])
                    } else {
                        a.nd(x).first_child
                    })
                    &&& chapter.nd(x).next_sibling == (if x == left {
                        a.nd(right).next_sibling
                    } else if l.len() > 0 && x == l.last() && r.len() > 0 {
                        some_id(r[0])
                    } else {
                        a.nd(x).next_sibling
                    })
                } by {
                assert(mid.nd(x) == (if r.contains(x) {
                    Node { parent: Some(left_id), ..a.nd(x) }
                } else {
                    a.nd(x)
                }));
                if l.len() > 0 {
                    assert(l.contains(l.last()));
                }
                if r.contains(x) {
                    let j = r.index_of(x);
                    assert(r[j] != left);
                }
            }
        }
        lemma_pair_wf(a, *chapter, p, i);
        assert((l + r).last() == r.last());
        assert forall|x: u32|
            #![trigger chapter.nd(x)]
            (x as int) < a.nodes@.len() implies chapter.nd(x).last_child == (if x == left && r.len() > 0 {
                some_id(r.last())
            } else {
                a.nd(x).last_child
            }) by {
            assert(mid.nd(x) == (if r.contains(x) {
                Node { parent: Some(left_id), ..a.nd(x) }
            } else {
                a.nd(x)
            }));
        }
        assert forall|k: int| 0 <= k < chapter.nodes@.len() implies (#[trigger] chapter.nodes@[k]).role
            == a.nodes@[k].role && chapter.nodes@[k].style == a.nodes@[k].style by {
            let x = k as u32;
            assert(mid.nd(x) == (if r.contains(x) {
                Node { parent: Some(left_id), ..a.nd(x) }
            } else {
                a.nd(x)
            }));
        }
    }
    right_last
}


/// Each child gathered into a list is a child of one of the siblings
/// gathered.
proof fn lemma_gathered_members(
    tree: Map<u32, Seq<u32>>,
    s: Seq<u32>,
    fus: spec_fn(u32, u32) -> bool,
    k: int,
    m: int,
    x: u32,
)
    requires
        gathered(tree, s, fus, k, m).contains(x),
    ensures
        exists|j: int| 0 <= j < m && #[trigger] tree[s[j]].contains(x),
    decreases m,
{
    if m > 0 {
        let g = gathered(tree, s, fus, k, m - 1);
        if g.contains(x) {
            lemma_gathered_members(tree, s, fus, k, m - 1, x);
            let j = choose|j: int| 0 <= j < m - 1 && #[trigger] tree[s[j]].contains(x);
            assert(tree[s[j]].contains(x));
        } else {
            let i = gathered(tree, s, fus, k, m).index_of(x);
            assert(head_idx(s, fus, m - 1) == k);
            assert(gathered(tree, s, fus, k, m) == g + tree[s[m - 1]]);
            assert(tree[s[m - 1]][i - g.len()] == x);
            assert(tree[s[m - 1]].contains(x));
        }
    }
}

/// A list gathers at least its own children.
proof fn lemma_gathered_grows(tree: Map<u32, Seq<u32>>, s: Seq<u32>, fus: spec_fn(u32, u32) -> bool, c: int, m: int)
    requires
        0 <= c < m,
        head_idx(s, fus, c) == c,
    ensures
        gathered(tree, s, fus, c, m).len() >= tree[s[c]].len(),
    decreases m,
{
    if m == c + 1 {
        lemma_gathered_fresh(tree, s, fus, c);
    } else {
        lemma_gathered_grows(tree, s, fus, c, m - 1);
    }
}

/// The `last_child` link of a surviving list once the lists of its run
/// among the first `m` siblings are fused into it: the last gathered child
/// when any list of the run brought children, else what it was.
pub open spec fn gathered_last(
    tree: Map<u32, Seq<u32>>,
    s: Seq<u32>,
    fus: spec_fn(u32, u32) -> bool,
    j: int,
    m: int,
    prior: Option<NodeId>,
) -> Option<NodeId> {
    let g = gathered(tree, s, fus, j, m);
    if g.len() > tree[s[j]].len() {
        some_id(g.last())
    } else {
        prior
    }
}

/// A child of a child of `p` is attached, has that child as its parent, and
/// is not itself a child of `p`.
proof fn lemma_kid_of_sibling(a: Chapter, p: u32, j: int, x: u32)
    requires
        a.wf(),
        a.live(p),
        0 <= j < a.kids(p).len(),
        a.kids(a.kids(p)[j]).contains(x),
    ensures
        a.live(x),
        x != 0,
        (x as int) < a.nodes@.len(),
        parent_of(a, x) == a.kids(p)[j],
        !a.kids(p).contains(x),
        x != p,
{
    let sj = a.kids(p)[j];
    lemma_kid(a, p, j);
    lemma_not_own_kid(a, p, j);
    let k = a.kids(sj).index_of(x);
    lemma_kid(a, sj, k);
    if a.kids(p).contains(x) {
        let i = a.kids(p).index_of(x);
        lemma_kid(a, p, i);
    }
    if x == p {
        lemma_not_own_kid(a, sj, k);
        lemma_parent(a, sj);
    }
}

/// No two neighbours in the sibling sequence `s` are fusable lists of `ch`.
pub open spec fn no_fusable_pairs(ch: Chapter, s: Seq<u32>) -> bool {
    forall|j: int| 0 <= j && j + 1 < s.len() ==> !fusable(ch, #[trigger] s[j], s[j + 1])
}

/// The node fields after one pair step among the children `s` of `p`: the
/// step touches only the left list, the children moved into it, and its
/// former last child.
#[verifier::spinoff_prover]
#[verifier::rlimit(40)]
proof fn lemma_sibling_pair_nodes(
    a: Chapter,
    before: Chapter,
    b: Chapter,
    p: u32,
    s: Seq<u32>,
    fus: spec_fn(u32, u32) -> bool,
    c: int,
    m: int,
    ci: int,
)
    requires
        a.wf(),
        a.live(p),
        s == a.kids(p),
        s.no_duplicates(),
        fus == fus_of(a),
        0 <= c < m < s.len(),
        head_idx(s, fus, c) == c,
        head_idx(s, fus, m) == c,
        before.kids(s[c]) == gathered(a.tree@, s, fus, c, m),
        before.kids(s[m]) == a.kids(s[m]),
        before.nodes@.len() == a.nodes@.len(),
        pair_step(before, b, p, ci),
        before.kids(p)[ci] == s[c],
        before.kids(p)[ci + 1] == s[m],
        b.same_content(before),
        forall|x: u32|
            #![trigger b.nd(x)]
            (x as int) < before.nodes@.len() ==> b.nd(x).last_child == (if x == s[c] && before.kids(s[m]).len() > 0 {
                some_id(before.kids(s[m]).last())
            } else {
                before.nd(x).last_child
            }),
        forall|x: u32|
            #![trigger before.nd(x)]
            (x as int) < a.nodes@.len() && !s.contains(x) && !(a.live(x) && x != 0 && s.contains(parent_of(a, x)))
                ==> before.nd(x) == a.nd(x),
        forall|j: int| m <= j < s.len() ==> before.nd(#[trigger] s[j]) == a.nd(s[j]),
        forall|j: int| 0 <= j < m && head_idx(s, fus, j) != j ==> before.nd(#[trigger] s[j]) == a.nd(s[j]),
        forall|j: int|
            0 <= j < m && head_idx(s, fus, j) == j ==> before.nd(#[trigger] s[j]).last_child == gathered_last(
                a.tree@,
                s,
                fus,
                j,
                m,
                a.nd(s[j]).last_child,
            ),
        forall|x: u32|
            #![trigger before.nd(x)]
            (x as int) < a.nodes@.len() && a.live(x) && x != 0 && s.contains(parent_of(a, x)) ==> before.nd(
                x,
            ).last_child == a.nd(x).last_child,
    ensures
        b.nodes@.len() == a.nodes@.len(),
        forall|x: u32|
            #![trigger b.nd(x)]
            (x as int) < a.nodes@.len() && !s.contains(x) && !(a.live(x) && x != 0 && s.contains(parent_of(a, x)))
                ==> b.nd(x) == a.nd(x),
        forall|j: int| m + 1 <= j < s.len() ==> b.nd(#[trigger] s[j]) == a.nd(s[j]),
        forall|j: int| 0 <= j < m + 1 && head_idx(s, fus, j) != j ==> b.nd(#[trigger] s[j]) == a.nd(s[j]),
        forall|j: int|
            0 <= j < m + 1 && head_idx(s, fus, j) == j ==> b.nd(#[trigger] s[j]).last_child == gathered_last(
                a.tree@,
                s,
                fus,
                j,
                m + 1,
                a.nd(s[j]).last_child,
            ),
        forall|x: u32|
            #![trigger b.nd(x)]
            (x as int) < a.nodes@.len() && a.live(x) && x != 0 && s.contains(parent_of(a, x)) ==> b.nd(x).last_child
                == a.nd(x).last_child,
{
        // Which nodes the pair step touches.
        let l = before.kids(s[c]);
        let r = before.kids(s[m]);
        assert(l == gathered(a.tree@, s, fus, c, m));
        assert(r == a.kids(s[m]));
        assert forall|x: u32| r.contains(x) implies a.live(x) && x != 0 && parent_of(a, x) == s[m] && !s.contains(x) by {
            lemma_kid_of_sibling(a, p, m, x);
        }
        assert forall|x: u32| l.contains(x) implies a.live(x) && x != 0 && s.contains(parent_of(a, x)) && !s.contains(x) by {
            lemma_gathered_members(a.tree@, s, fus, c, m, x);
            let j = choose|j: int| 0 <= j < m && #[trigger] a.tree@[s[j]].contains(x);
            lemma_kid_of_sibling(a, p, j, x);
        }
        if l.len() > 0 {
            assert(l.contains(l.last()));
        }
        assert forall|x: u32|
            #![trigger b.nd(x)]
            (x as int) < a.nodes@.len() && x != s[c] && !r.contains(x) && !(l.len() > 0 && x == l.last()) implies b.nd(x)
            == before.nd(x) by {
            assert(b.nodes@[x as int].role == before.nodes@[x as int].role);
            assert(b.nodes@[x as int].style == before.nodes@[x as int].style);
        }
        assert forall|x: u32|
            #![trigger b.nd(x)]
            (x as int) < a.nodes@.len() && !s.contains(x) && !(a.live(x) && x != 0 && s.contains(parent_of(a, x)))
            implies b.nd(x) == a.nd(x) by {
            assert(s.contains(s[c]));
            assert(before.nd(x) == a.nd(x));
        }
        assert forall|j: int| m + 1 <= j < s.len() implies b.nd(#[trigger] s[j]) == a.nd(s[j]) by {
            lemma_kid(a, p, j);
            assert(s[j] != s[c]);
            assert(s.contains(s[j]));
            assert(before.nd(s[j]) == a.nd(s[j]));
        }
        assert forall|j: int| 0 <= j < m + 1 && head_idx(s, fus, j) != j implies b.nd(#[trigger] s[j]) == a.nd(s[j]) by {
            lemma_kid(a, p, j);
            assert(s[j] != s[c]);
            assert(s.contains(s[j]));
            assert(before.nd(s[j]) == a.nd(s[j]));
        }
        assert forall|j: int|
            0 <= j < m + 1 && head_idx(s, fus, j) == j implies b.nd(#[trigger] s[j]).last_child == gathered_last(
            a.tree@,
            s,
            fus,
            j,
            m + 1,
            a.nd(s[j]).last_child,
        ) by {
            lemma_kid(a, p, j);
            assert(j != m);
            assert(s.contains(s[j]));
            if j == c {
                lemma_gathered_grows(a.tree@, s, fus, c, m);
                assert(gathered(a.tree@, s, fus, c, m + 1) == l + r);
                if r.len() > 0 {
                    assert((l + r).last() == r.last());
                } else {
                    assert(l + r =~= l);
                }
            } else {
                assert(s[j] != s[c]);
                assert(gathered(a.tree@, s, fus, j, m + 1) == gathered(a.tree@, s, fus, j, m) + Seq::<u32>::empty());
                assert(gathered(a.tree@, s, fus, j, m) + Seq::<u32>::empty() =~= gathered(a.tree@, s, fus, j, m));
            }
        }
        assert forall|x: u32|
            #![trigger b.nd(x)]
            (x as int) < a.nodes@.len() && a.live(x) && x != 0 && s.contains(parent_of(a, x)) implies b.nd(x).last_child
            == a.nd(x).last_child by {
            let q = parent_of(a, x);
            let jq = s.index_of(q);
            assert(s[jq] == q);
            lemma_kid(a, p, jq);
            lemma_live(a, q);
            lemma_parent(a, x);
            assert(a.kids(q).contains(x));
            lemma_kid_of_sibling(a, p, jq, x);
            assert(x != s[c]);
            assert(before.nd(x).last_child == a.nd(x).last_child);
        }
}

/// Fuse every run of adjacent fusable lists among the children of
/// `parent_id`: each list absorbs the following siblings that are fusable
/// with it, until one is not.
#[verifier::spinoff_prover]
#[verifier::rlimit(100)]
fn fuse_list_siblings(chapter: &mut Chapter, parent_id: NodeId)
    requires
        old(chapter).wf(),
        old(chapter).live(parent_id.0),
    ensures
        final(chapter).wf(),
        final(chapter).same_content(*old(chapter)),
        final(chapter).depth@ == old(chapter).depth@,
        final(chapter).live(parent_id.0),
        final(chapter).kids(parent_id.0) == survivors(
            old(chapter).kids(parent_id.0),
            fus_of(*old(chapter)),
            old(chapter).kids(parent_id.0).len() as int,
        ),
        forall|j: int|
            0 <= j < old(chapter).kids(parent_id.0).len() ==> (final(chapter).live(
                #[trigger] old(chapter).kids(parent_id.0)[j],
            ) <==> head_idx(old(chapter).kids(parent_id.0), fus_of(*old(chapter)), j) == j),
        forall|j: int|
            0 <= j < old(chapter).kids(parent_id.0).len() && head_idx(
                old(chapter).kids(parent_id.0),
                fus_of(*old(chapter)),
                j,
            ) == j ==> final(chapter).kids(#[trigger] old(chapter).kids(parent_id.0)[j]) == gathered(
                old(chapter).tree@,
                old(chapter).kids(parent_id.0),
                fus_of(*old(chapter)),
                j,
                old(chapter).kids(parent_id.0).len() as int,
            ),
        forall|x: u32|
            !old(chapter).kids(parent_id.0).contains(x) ==> (#[trigger] final(chapter).live(x)
                <==> old(chapter).live(x)),
        forall|x: u32|
            #[trigger] final(chapter).live(x) && x != parent_id.0 && !old(chapter).kids(
                parent_id.0,
            ).contains(x) ==> final(chapter).kids(x) == old(chapter).kids(x),
        no_fusable_pairs(*old(chapter), old(chapter).kids(parent_id.0)) ==> *final(chapter) == *old(chapter),
        final(chapter).nodes@.len() == old(chapter).nodes@.len(),
        forall|x: u32|
            #![trigger final(chapter).nd(x)]
            (x as int) < old(chapter).nodes@.len() && !old(chapter).kids(parent_id.0).contains(x) && !(old(chapter).live(x)
                && x != 0 && old(chapter).kids(parent_id.0).contains(parent_of(*old(chapter), x))) ==> final(chapter).nd(x)
                == old(chapter).nd(x),
        forall|j: int|
            0 <= j < old(chapter).kids(parent_id.0).len() && head_idx(
                old(chapter).kids(parent_id.0),
                fus_of(*old(chapter)),
                j,
            ) != j ==> final(chapter).nd(#[trigger] old(chapter).kids(parent_id.0)[j]) == old(chapter).nd(
                old(chapter).kids(parent_id.0)[j],
            ),
        forall|j: int|
            0 <= j < old(chapter).kids(parent_id.0).len() && head_idx(
                old(chapter).kids(parent_id.0),
                fus_of(*old(chapter)),
                j,
            ) == j ==> final(chapter).nd(#[trigger] old(chapter).kids(parent_id.0)[j]).last_child == gathered_last(
                old(chapter).tree@,
                old(chapter).kids(parent_id.0),
                fus_of(*old(chapter)),
                j,
                old(chapter).kids(parent_id.0).len() as int,
                old(chapter).nd(old(chapter).kids(parent_id.0)[j]).last_child,
            ),
        forall|x: u32|
            #![trigger final(chapter).nd(x)]
            (x as int) < old(chapter).nodes@.len() && old(chapter).live(x) && x != 0 && old(chapter).kids(
                parent_id.0,
            ).contains(parent_of(*old(chapter), x)) ==> final(chapter).nd(x).last_child == old(chapter).nd(x).last_child,
{
    let ghost a = *chapter;
    let p = parent_id.0;
    let ghost s = a.kids(p);
    let ghost fus = fus_of(a);
    proof {
        lemma_live(a, p);
    }
    let mut cursor_opt = chapter.nodes[p as usize].first_child;
    // Tail (last child) of the current cursor list, cached across
    // consecutive fusions into the same left list so the one-ul-per-li
    // pattern fuses in O(m) instead of re-walking the growing left list.
    let mut cached_tail: Option<NodeId> = None;
    if cursor_opt.is_none() {
        proof {
            assert(s.len() == 0);
            assert(survivors(s, fus, 0) == Seq::<u32>::empty());
        }
        return;
    }
    let ghost mut m: int = 1;
    let ghost mut c: int = 0;
    proof {
        assert(survivors(s, fus, 1) == seq![s[0]]) by {
            assert(survivors(s, fus, 0) == Seq::<u32>::empty());
        }
        assert(s == seq![s[0]] + s.skip(1));
        lemma_gathered_fresh(a.tree@, s, fus, 0);
        assert(head_idx(s, fus, 0) == 0);
        assert(gathered_last(a.tree@, s, fus, 0, 1, a.nd(s[0]).last_child) == a.nd(s[0]).last_child);
        assert forall|j: int| 0 <= j < s.len() implies (chapter.live(#[trigger] s[j]) <==> (j >= 1
            || head_idx(s, fus, j) == j)) by {
            lemma_kid(a, p, j);
        }
    }
    while cursor_opt.is_some()
        invariant
            chapter.wf(),
            chapter.same_content(a),
            chapter.depth@ == a.depth@,
            a.wf(),
            a.live(p),
            s == a.kids(p),
            s.no_duplicates(),
            fus == fus_of(a),
            chapter.live(p),
            1 <= m <= s.len(),
            0 <= c < m,
            c == head_idx(s, fus, m - 1),
            cursor_opt is Some ==> cursor_opt == some_id(s[c]),
            cursor_opt is None ==> m == s.len(),
            chapter.kids(p) == survivors(s, fus, m) + s.skip(m),
            forall|j: int| 0 <= j < s.len() ==> (chapter.live(#[trigger] s[j]) <==> (j >= m || head_idx(s, fus, j) == j)),
            forall|x: u32| !s.contains(x) ==> (#[trigger] chapter.live(x) <==> a.live(x)),
            forall|j: int|
                0 <= j < m && head_idx(s, fus, j) == j ==> chapter.kids(#[trigger] s[j]) == gathered(a.tree@, s, fus, j, m),
            forall|j: int| m <= j < s.len() ==> chapter.kids(#[trigger] s[j]) == a.kids(s[j]),
            forall|x: u32|
                #[trigger] chapter.live(x) && x != p && !s.contains(x) ==> chapter.kids(x) == a.kids(x),
            cached_tail is None || (chapter.kids(s[c]).len() > 0 && cached_tail == some_id(
                chapter.kids(s[c]).last(),
            )),
            no_fusable_pairs(a, s) ==> *chapter == a && c == m - 1,
            chapter.nodes@.len() == a.nodes@.len(),
            forall|x: u32|
                #![trigger chapter.nd(x)]
                (x as int) < a.nodes@.len() && !s.contains(x) && !(a.live(x) && x != 0 && s.contains(parent_of(a, x)))
                    ==> chapter.nd(x) == a.nd(x),
            forall|j: int| m <= j < s.len() ==> chapter.nd(#[trigger] s[j]) == a.nd(s[j]),
            forall|j: int| 0 <= j < m && head_idx(s, fus, j) != j ==> chapter.nd(#[trigger] s[j]) == a.nd(s[j]),
            forall|j: int|
                0 <= j < m && head_idx(s, fus, j) == j ==> chapter.nd(#[trigger] s[j]).last_child == gathered_last(
                    a.tree@,
                    s,
                    fus,
                    j,
                    m,
                    a.nd(s[j]).last_child,
                ),
            forall|x: u32|
                #![trigger chapter.nd(x)]
                (x as int) < a.nodes@.len() && a.live(x) && x != 0 && s.contains(parent_of(a, x)) ==> chapter.nd(
                    x,
                ).last_child == a.nd(x).last_child,
        decreases s.len() - m + (if cursor_opt is Some { 1int } else { 0int }),
    {
        let current_id = cursor_opt.unwrap();
        let ghost kp = chapter.kids(p);
        let ghost ci = survivors(s, fus, m).len() - 1;
        proof {
            lemma_survivors_last(s, fus, m);
            lemma_live(*chapter, p);
            assert(kp[ci] == s[c]);
            assert(chapter.nd(kp[ci]).next_sibling == (if ci + 1 < kp.len() { some_id(kp[ci + 1]) } else { None::<NodeId> }));
            if m < s.len() {
                assert(kp[ci + 1] == s[m]);
            }
            lemma_kid(*chapter, p, ci);
        }
        let next_opt = chapter.nodes[current_id.0 as usize].next_sibling;
        let ghost before = *chapter;
        let fuse_now = match next_opt {
            Some(next_id) => can_fuse_lists(chapter, current_id, next_id),
            None => false,
        };
        if fuse_now {
            let next_id = next_opt.unwrap();
            proof {
                lemma_not_own_kid(a, p, m);
                lemma_not_own_kid(a, p, c);
                assert(fusable(*chapter, s[c], s[m]) == fusable(a, s[c], s[m]));
                assert(head_idx(s, fus, m) == c);
                if no_fusable_pairs(a, s) {
                    assert(!fusable(a, s[m - 1], s[m]));
                }
            }
            cached_tail = fuse_list_pair(chapter, current_id, next_id, cached_tail, Ghost(p), Ghost(ci));
            proof {
                let ghost b = *chapter;
                assert(b.tree@ == before.tree@.remove(s[m]).insert(p, kp.remove(ci + 1)).insert(
                    s[c],
                    before.kids(s[c]) + before.kids(s[m]),
                ));
                assert(survivors(s, fus, m + 1) == survivors(s, fus, m));
                assert(kp.remove(ci + 1) == survivors(s, fus, m + 1) + s.skip(m + 1));
                assert(gathered(a.tree@, s, fus, c, m + 1) == gathered(a.tree@, s, fus, c, m) + a.kids(s[m]));
                assert forall|j: int| 0 <= j < s.len() implies (b.live(#[trigger] s[j]) <==> (j >= m + 1
                    || head_idx(s, fus, j) == j)) by {
                    if j != m {
                        assert(s[j] != s[m]);
                    }
                }
                assert forall|x: u32| !s.contains(x) implies (#[trigger] b.live(x) <==> a.live(x)) by {
                    assert(before.live(x) == a.live(x));
                    assert(x != s[m]) by {
                        assert(s.contains(s[m]));
                    }
                }
                assert forall|j: int|
                    0 <= j < m + 1 && head_idx(s, fus, j) == j implies b.kids(#[trigger] s[j]) == gathered(a.tree@, s, fus, j, m + 1) by {
                    assert(j != m);
                    assert(s[j] != s[m]);
                    lemma_not_own_kid(a, p, j);
                    assert(s[j] != p);
                    if j != c {
                        assert(s[j] != s[c]);
                    }
                }
                assert forall|j: int| m + 1 <= j < s.len() implies b.kids(#[trigger] s[j]) == a.kids(s[j]) by {
                    assert(s[j] != s[m]);
                    assert(s[j] != s[c]);
                    lemma_not_own_kid(a, p, j);
                }
                assert forall|x: u32| #[trigger] b.live(x) && x != p && !s.contains(x) implies b.kids(x) == a.kids(x) by {
                    assert(x != s[c]) by {
                        assert(s.contains(s[c]));
                    }
                    assert(before.live(x));
                }
                lemma_sibling_pair_nodes(a, before, b, p, s, fus, c, m, ci);
                m = m + 1;
            }
        } else {
            cached_tail = None;
            cursor_opt = next_opt;
            proof {
                if m < s.len() {
                    assert(fusable(before, s[c], s[m]) == fusable(a, s[c], s[m]));
                    assert(head_idx(s, fus, m) == m);
                    assert(survivors(s, fus, m + 1) == survivors(s, fus, m).push(s[m]));
                    assert(s.skip(m) == seq![s[m]] + s.skip(m + 1));
                    assert(chapter.kids(p) == survivors(s, fus, m + 1) + s.skip(m + 1));
                    lemma_gathered_fresh(a.tree@, s, fus, m);
                    assert forall|j: int|
                        0 <= j < m + 1 && head_idx(s, fus, j) == j implies chapter.kids(#[trigger] s[j]) == gathered(a.tree@, s, fus, j, m + 1) by {
                        if j < m {
                            assert(gathered(a.tree@, s, fus, j, m + 1) == gathered(a.tree@, s, fus, j, m) + Seq::<u32>::empty());
                        }
                    }
                    assert forall|j: int|
                        0 <= j < m + 1 && head_idx(s, fus, j) == j implies chapter.nd(#[trigger] s[j]).last_child == gathered_last(
                        a.tree@,
                        s,
                        fus,
                        j,
                        m + 1,
                        a.nd(s[j]).last_child,
                    ) by {
                        if j < m {
                            assert(gathered(a.tree@, s, fus, j, m + 1) == gathered(a.tree@, s, fus, j, m) + Seq::<u32>::empty());
                            assert(gathered(a.tree@, s, fus, j, m) + Seq::<u32>::empty() =~= gathered(a.tree@, s, fus, j, m));
                        }
                    }
                    c = m;
                    m = m + 1;
                }
            }
        }
    }
    proof {
        assert(s.skip(s.len() as int) == Seq::<u32>::empty());
        assert(chapter.kids(p) == survivors(s, fus, s.len() as int));
    }
}


/// The parent of an attached non-root node.
pub open spec fn parent_of(ch: Chapter, x: u32) -> u32 {
    ch.nd(x).parent.unwrap().0
}

/// `x` is the root, or heads its run among its parent's children (it is
/// not absorbed by an earlier sibling list).
pub open spec fn survives(ch: Chapter, x: u32) -> bool {
    x == 0 || {
        let s = ch.kids(parent_of(ch, x));
        head_idx(s, fus_of(ch), s.index_of(x)) == s.index_of(x)
    }
}

/// The children of `x` after fusing runs among them.
pub open spec fn own_fused(ch: Chapter, x: u32) -> Seq<u32> {
    survivors(ch.kids(x), fus_of(ch), ch.kids(x).len() as int)
}

/// `own_fused` for every attached node.
pub open spec fn own_fused_map(ch: Chapter) -> Map<u32, Seq<u32>> {
    Map::new(|x: u32| ch.live(x), |x: u32| own_fused(ch, x))
}

/// The final children of `x` after fusing lists everywhere, bottom-up: the
/// root keeps its own fused children; any other surviving node holds the
/// fused children of every sibling list it absorbed, in order.
pub open spec fn fused_kids(ch: Chapter, x: u32) -> Seq<u32> {
    if x == 0 {
        own_fused(ch, 0)
    } else {
        let s = ch.kids(parent_of(ch, x));
        gathered(own_fused_map(ch), s, fus_of(ch), s.index_of(x), s.len() as int)
    }
}

/// The tree after fusing lists everywhere: the surviving nodes and their
/// children.
pub open spec fn fused_tree(ch: Chapter) -> Map<u32, Seq<u32>> {
    Map::new(|x: u32| ch.live(x) && survives(ch, x), |x: u32| fused_kids(ch, x))
}

/// Chapters with the same content have the same fusability relation.
proof fn lemma_same_fus(a: Chapter, b: Chapter)
    requires
        b.same_content(a),
    ensures
        fus_of(b) == fus_of(a),
{
    assert forall|x: u32, y: u32| #[trigger] fusable(b, x, y) == fusable(a, x, y) by {
        if (x as int) < a.nodes@.len() {
            assert(b.nodes@[x as int].role == a.nodes@[x as int].role);
        }
        if (y as int) < a.nodes@.len() {
            assert(b.nodes@[y as int].role == a.nodes@[y as int].role);
        }
    }
    assert(fus_of(b) =~= fus_of(a));
}

/// Every attached node is listed when the listing is closed under children.
proof fn lemma_order_complete(ch: Chapter, o: Seq<u32>, d: nat)
    requires
        ch.wf(),
        o.contains(0),
        forall|w: int, k: int|
            0 <= w < o.len() && 0 <= k < ch.kids(o[w]).len() ==> o.contains(#[trigger] ch.kids(o[w])[k]),
    ensures
        forall|x: u32| #[trigger] ch.live(x) && ch.depth@[x] <= d ==> o.contains(x),
    decreases d,
{
    assert forall|x: u32| #[trigger] ch.live(x) && ch.depth@[x] <= d implies o.contains(x) by {
        if x != 0 {
            lemma_parent(ch, x);
            let q = parent_of(ch, x);
            assert(d >= 1);
            lemma_order_complete(ch, o, (d - 1) as nat);
            assert(o.contains(q));
            let w = o.index_of(q);
            let k = ch.kids(q).index_of(x);
            assert(ch.kids(o[w])[k] == x);
        }
    }
}

/// The attached nodes, each listed after its parent (breadth first from the
/// root).
fn top_down_order(chapter: &Chapter) -> (o: Vec<u32>)
    requires
        chapter.wf(),
    ensures
        o@.no_duplicates(),
        forall|x: u32| chapter.live(x) <==> o@.contains(x),
        forall|u: int, v: int|
            0 <= u < o@.len() && 0 <= v < o@.len() && o@[u] != 0 && o@[v] == parent_of(*chapter, o@[u]) ==> v < u,
{
    let n = chapter.nodes.len();
    let mut o: Vec<u32> = Vec::new();
    o.push(0);
    let ghost mut pw: Seq<int> = seq![0int];
    let mut i: usize = 0;
    while i < o.len()
        invariant
            chapter.wf(),
            n == chapter.nodes@.len(),
            0 <= i <= o@.len(),
            o@.len() >= 1,
            o@[0] == 0,
            o@.no_duplicates(),
            pw.len() == o@.len(),
            forall|u: int| 0 <= u < o@.len() ==> chapter.live(#[trigger] o@[u]),
            forall|u: int|
                1 <= u < o@.len() ==> 0 <= #[trigger] pw[u] < i && pw[u] < u && o@[pw[u]] == parent_of(*chapter, o@[u]) && o@[u] != 0,
            forall|w: int, k: int|
                0 <= w < i && 0 <= k < chapter.kids(o@[w]).len() ==> o@.contains(#[trigger] chapter.kids(o@[w])[k]),
        decreases n - i,
    {
        proof {
            assert forall|u: int| 0 <= u < o@.len() implies (o@[u] as int) < n by {
                lemma_live(*chapter, o@[u]);
            }
            lemma_distinct_bounded(o@, n as nat);
        }
        let p = o[i];
        let ghost s = chapter.kids(p);
        let ghost base = o@;
        let ghost pbase = pw;
        proof {
            lemma_live(*chapter, p);
        }
        let mut cur = chapter.nodes[p as usize].first_child;
        let ghost mut k: int = 0;
        while cur.is_some()
            invariant
                chapter.wf(),
                chapter.live(p),
                s == chapter.kids(p),
                s.no_duplicates(),
                chapter.chain_ok(p),
                n == chapter.nodes@.len(),
                i < base.len(),
                base[i as int] == p,
                0 <= k <= s.len(),
                cur == (if k < s.len() { some_id(s[k]) } else { None::<NodeId> }),
                o@ == base + s.take(k),
                pw == pbase + Seq::new(k as nat, |_j: int| i as int),
                pbase.len() == base.len(),
                base.len() >= 1,
                base[0] == 0,
                base.no_duplicates(),
                forall|u: int| 0 <= u < base.len() ==> chapter.live(#[trigger] base[u]),
                forall|u: int|
                    1 <= u < base.len() ==> 0 <= #[trigger] pbase[u] < i && pbase[u] < u && base[pbase[u]] == parent_of(*chapter, base[u]) && base[u] != 0,
                o@.no_duplicates(),
            decreases s.len() - k,
        {
            let c = cur.unwrap();
            proof {
                lemma_kid(*chapter, p, k);
                assert(!o@.contains(s[k])) by {
                    if o@.contains(s[k]) {
                        let u = o@.index_of(s[k]);
                        if u < base.len() {
                            assert(u >= 1);
                            assert(base[pbase[u]] == p);
                            assert(pbase[u] < i);
                        } else {
                            assert(o@[u] == s[u - base.len()]);
                        }
                    }
                }
                assert(s.take(k + 1) == s.take(k).push(s[k]));
            }
            o.push(c.0);
            cur = chapter.nodes[c.0 as usize].next_sibling;
            proof {
                pw = pw.push(i as int);
                assert(Seq::new((k + 1) as nat, |_j: int| i as int) == Seq::new(k as nat, |_j: int| i as int).push(i as int));
                k = k + 1;
            }
        }
        proof {
            assert(s.take(s.len() as int) == s);
            assert forall|u: int| 0 <= u < o@.len() implies chapter.live(#[trigger] o@[u]) by {
                if u >= base.len() {
                    lemma_kid(*chapter, p, u - base.len());
                }
            }
            assert forall|u: int|
                1 <= u < o@.len() implies 0 <= #[trigger] pw[u] < i + 1 && pw[u] < u && o@[pw[u]] == parent_of(*chapter, o@[u]) && o@[u] != 0 by {
                if u >= base.len() {
                    lemma_kid(*chapter, p, u - base.len());
                    assert(pw[u] == i);
                } else {
                    assert(pw[u] == pbase[u]);
                }
            }
            assert forall|w: int, kk: int|
                0 <= w < i + 1 && 0 <= kk < chapter.kids(o@[w]).len() implies o@.contains(#[trigger] chapter.kids(o@[w])[kk]) by {
                if w == i {
                    assert(o@[base.len() + kk] == s[kk]);
                } else {
                    assert(o@[w] == base[w]);
                    let u = base.index_of(chapter.kids(o@[w])[kk]);
                    assert(o@[u] == base[u]);
                }
            }
        }
        i = i + 1;
    }
    proof {
        lemma_order_complete(*chapter, o@, 0);
        assert forall|x: u32| chapter.live(x) <==> o@.contains(x) by {
            if chapter.live(x) {
                lemma_order_complete(*chapter, o@, chapter.depth@[x]);
            }
        }
        assert forall|u: int, v: int|
            0 <= u < o@.len() && 0 <= v < o@.len() && o@[u] != 0 && o@[v] == parent_of(*chapter, o@[u]) implies v < u by {
            assert(u >= 1);
            assert(o@[pw[u]] == o@[v]);
        }
    }
    o
}


/// The state of the bottom-up fusion of `a` once the nodes listed at
/// positions `t..` of `o` have been visited: a node's children are untouched
/// until it is visited, fused among themselves once it is, and gathered from
/// the lists it absorbed once its parent is visited too; absorbed lists leave
/// the tree when their parent is visited.
pub open spec fn fused_upto(a: Chapter, cur: Chapter, o: Seq<u32>, t: int) -> bool {
    &&& forall|x: u32|
        #[trigger] cur.live(x) <==> (a.live(x) && (x == 0 || o.index_of(parent_of(a, x)) < t
            || survives(a, x)))
    &&& forall|x: u32|
        #[trigger] cur.live(x) ==> cur.kids(x) == (if o.index_of(x) < t {
            a.kids(x)
        } else if x == 0 || o.index_of(parent_of(a, x)) < t {
            own_fused(a, x)
        } else {
            fused_kids(a, x)
        })
}

/// Visiting the node at position `t - 1` extends the visited suffix.
#[verifier::spinoff_prover]
#[verifier::rlimit(60)]
proof fn lemma_visit_step(a: Chapter, cur: Chapter, next: Chapter, o: Seq<u32>, t: int)
    requires
        a.wf(),
        cur.wf(),
        cur.same_content(a),
        1 <= t <= o.len(),
        o.no_duplicates(),
        forall|x: u32| a.live(x) <==> o.contains(x),
        forall|u: int, v: int|
            0 <= u < o.len() && 0 <= v < o.len() && o[u] != 0 && o[v] == parent_of(a, o[u]) ==> v < u,
        fused_upto(a, cur, o, t),
        cur.live(o[t - 1]),
        next.wf(),
        next.same_content(cur),
        ({
            let pp = o[t - 1];
            let s = cur.kids(pp);
            let fus = fus_of(cur);
            &&& next.kids(pp) == survivors(s, fus, s.len() as int)
            &&& forall|j: int|
                0 <= j < s.len() ==> (next.live(#[trigger] s[j]) <==> head_idx(s, fus, j) == j)
            &&& forall|j: int|
                0 <= j < s.len() && head_idx(s, fus, j) == j ==> next.kids(#[trigger] s[j]) == gathered(
                    cur.tree@,
                    s,
                    fus,
                    j,
                    s.len() as int,
                )
            &&& forall|x: u32| !s.contains(x) ==> (#[trigger] next.live(x) <==> cur.live(x))
            &&& forall|x: u32|
                #[trigger] next.live(x) && x != pp && !s.contains(x) ==> next.kids(x) == cur.kids(x)
        }),
    ensures
        fused_upto(a, next, o, t - 1),
{
    let pp = o[t - 1];
    let s = cur.kids(pp);
    let fus = fus_of(cur);
    lemma_same_fus(cur, a);
    assert(o.index_of(pp) == t - 1);
    assert(a.live(pp)) by {
        assert(o.contains(pp));
    }
    assert(s == a.kids(pp));
    lemma_live(a, pp);
    // Facts about each child of `pp`.
    assert forall|j: int| 0 <= j < s.len() implies {
        &&& #[trigger] s[j] != 0
        &&& a.live(s[j])
        &&& parent_of(a, s[j]) == pp
        &&& s.index_of(s[j]) == j
        &&& o.index_of(s[j]) >= t
        &&& cur.live(s[j])
        &&& cur.kids(s[j]) == own_fused(a, s[j])
    } by {
        lemma_kid(a, pp, j);
        assert(o.contains(s[j]));
        let u = o.index_of(s[j]);
        assert(o[u] == s[j]);
        assert(parent_of(a, s[j]) == pp);
        assert(o[t - 1] == parent_of(a, o[u]));
        assert(u > t - 1);
        let jj = s.index_of(s[j]);
        assert(s[jj] == s[j]);
        assert(jj == j);
        assert(cur.live(s[j]));
    }
    assert forall|x: u32| #[trigger] next.live(x) <==> (a.live(x) && (x == 0 || o.index_of(
        parent_of(a, x),
    ) < t - 1 || survives(a, x))) by {
        if s.contains(x) {
            let j = s.index_of(x);
            assert(s[j] == x);
        } else {
            if a.live(x) && x != 0 {
                lemma_parent(a, x);
                let q = parent_of(a, x);
                assert(q != pp) by {
                    if q == pp {
                        assert(a.kids(pp).contains(x));
                    }
                }
                assert(o.contains(q));
                assert(o.index_of(q) != t - 1);
            }
        }
    }
    assert forall|x: u32| #[trigger] next.live(x) implies next.kids(x) == (if o.index_of(x) < t - 1 {
        a.kids(x)
    } else if x == 0 || o.index_of(parent_of(a, x)) < t - 1 {
        own_fused(a, x)
    } else {
        fused_kids(a, x)
    }) by {
        if x == pp {
            if x != 0 {
                lemma_parent(a, x);
                assert(o.contains(parent_of(a, x)));
                let v = o.index_of(parent_of(a, x));
                assert(v < t - 1);
            }
        } else if s.contains(x) {
            let j = s.index_of(x);
            assert(s[j] == x);
            assert forall|k: int| 0 <= k < s.len() implies cur.tree@[#[trigger] s[k]] == own_fused_map(a)[s[k]] by {
            }
            lemma_gathered_congr(cur.tree@, own_fused_map(a), s, fus, j, s.len() as int);
        } else {
            assert(cur.live(x));
            assert(a.live(x));
            assert(o.contains(x));
            assert(o.index_of(x) != t - 1);
            if x != 0 {
                lemma_parent(a, x);
                let q = parent_of(a, x);
                assert(q != pp) by {
                    if q == pp {
                        assert(a.kids(pp).contains(x));
                    }
                }
                assert(o.contains(q));
                assert(o.index_of(q) != t - 1);
            }
        }
    }
}

/// The `last_child` link of `x` once the nodes at positions `t..` of `o`
/// are visited: a surviving list whose parent is visited and that gathered
/// children from the lists it absorbed points at the last of them; any
/// other node keeps its link.
pub open spec fn last_child_upto(a: Chapter, o: Seq<u32>, t: int, x: u32) -> Option<NodeId> {
    if a.live(x) && x != 0 && o.index_of(parent_of(a, x)) >= t && survives(a, x) && fused_kids(a, x).len() > own_fused(
        a,
        x,
    ).len() {
        some_id(fused_kids(a, x).last())
    } else {
        a.nd(x).last_child
    }
}

/// The `last_child` link of `x` after fusion: a kept list that gathered
/// children from the lists it absorbed points at the last of them; every
/// other node keeps its link.
pub open spec fn fused_last_child(a: Chapter, x: u32) -> Option<NodeId> {
    if fused_tree(a).dom().contains(x) && fused_kids(a, x).len() > own_fused(a, x).len() {
        some_id(fused_kids(a, x).last())
    } else {
        a.nd(x).last_child
    }
}

/// The node fields once the nodes at positions `t..` of `o` are visited: a
/// node is untouched until its parent is visited, an absorbed list stays
/// untouched, and `last_child` links follow `last_child_upto`.
pub open spec fn nodes_upto(a: Chapter, cur: Chapter, o: Seq<u32>, t: int) -> bool {
    &&& cur.nodes@.len() == a.nodes@.len()
    &&& forall|x: u32|
        #![trigger cur.nd(x)]
        (x as int) < a.nodes@.len() && (!a.live(x) || x == 0 || o.index_of(parent_of(a, x)) < t) ==> cur.nd(x)
            == a.nd(x)
    &&& forall|x: u32|
        #![trigger cur.nd(x)]
        (x as int) < a.nodes@.len() && a.live(x) && x != 0 && o.index_of(parent_of(a, x)) >= t && !survives(a, x)
            ==> cur.nd(x) == a.nd(x)
    &&& forall|x: u32|
        #![trigger cur.nd(x)]
        (x as int) < a.nodes@.len() ==> cur.nd(x).last_child == last_child_upto(a, o, t, x)
}

/// Visiting the node at position `t - 1` keeps the node fields in step.
#[verifier::spinoff_prover]
#[verifier::rlimit(80)]
proof fn lemma_visit_nodes(a: Chapter, cur: Chapter, next: Chapter, o: Seq<u32>, t: int)
    requires
        a.wf(),
        cur.wf(),
        cur.same_content(a),
        1 <= t <= o.len(),
        o.no_duplicates(),
        forall|x: u32| a.live(x) <==> o.contains(x),
        forall|u: int, v: int|
            0 <= u < o.len() && 0 <= v < o.len() && o[u] != 0 && o[v] == parent_of(a, o[u]) ==> v < u,
        fused_upto(a, cur, o, t),
        nodes_upto(a, cur, o, t),
        cur.live(o[t - 1]),
        ({
            let pp = o[t - 1];
            let s = cur.kids(pp);
            let fus = fus_of(cur);
            &&& next.nodes@.len() == cur.nodes@.len()
            &&& forall|x: u32|
                #![trigger next.nd(x)]
                (x as int) < cur.nodes@.len() && !s.contains(x) && !(cur.live(x) && x != 0 && s.contains(
                    parent_of(cur, x),
                )) ==> next.nd(x) == cur.nd(x)
            &&& forall|j: int|
                0 <= j < s.len() && head_idx(s, fus, j) != j ==> next.nd(#[trigger] s[j]) == cur.nd(s[j])
            &&& forall|j: int|
                0 <= j < s.len() && head_idx(s, fus, j) == j ==> next.nd(#[trigger] s[j]).last_child == gathered_last(
                    cur.tree@,
                    s,
                    fus,
                    j,
                    s.len() as int,
                    cur.nd(s[j]).last_child,
                )
            &&& forall|x: u32|
                #![trigger next.nd(x)]
                (x as int) < cur.nodes@.len() && cur.live(x) && x != 0 && s.contains(parent_of(cur, x))
                    ==> next.nd(x).last_child == cur.nd(x).last_child
        }),
    ensures
        nodes_upto(a, next, o, t - 1),
{
    let pp = o[t - 1];
    let s = cur.kids(pp);
    let fus = fus_of(cur);
    lemma_same_fus(cur, a);
    assert(o.index_of(pp) == t - 1);
    assert(a.live(pp)) by {
        assert(o.contains(pp));
    }
    assert(s == a.kids(pp));
    lemma_live(a, pp);
    assert forall|j: int| 0 <= j < s.len() implies {
        &&& #[trigger] s[j] != 0
        &&& a.live(s[j])
        &&& parent_of(a, s[j]) == pp
        &&& s.index_of(s[j]) == j
        &&& o.index_of(s[j]) >= t
        &&& cur.live(s[j])
        &&& cur.kids(s[j]) == own_fused(a, s[j])
        &&& cur.nd(s[j]) == a.nd(s[j])
        &&& (s[j] as int) < a.nodes@.len()
    } by {
        lemma_kid(a, pp, j);
        assert(o.contains(s[j]));
        let u = o.index_of(s[j]);
        assert(o[u] == s[j]);
        assert(o[t - 1] == parent_of(a, o[u]));
        assert(u > t - 1);
        let jj = s.index_of(s[j]);
        assert(s[jj] == s[j]);
        assert(jj == j);
        assert(cur.live(s[j]));
    }
    // A node whose parent (in `a`) is `pp` is a child of `pp`.
    assert forall|x: u32| a.live(x) && x != 0 && parent_of(a, x) == pp implies s.contains(x) by {
        lemma_parent(a, x);
    }
    assert forall|x: u32|
        #![trigger next.nd(x)]
        (x as int) < a.nodes@.len() && (!a.live(x) || x == 0 || o.index_of(parent_of(a, x)) < t - 1) implies next.nd(x)
        == a.nd(x) by {
        assert(cur.nd(x) == a.nd(x));
        if s.contains(x) {
            let j = s.index_of(x);
            assert(s[j] == x);
        }
        if cur.live(x) && x != 0 && s.contains(parent_of(cur, x)) {
            assert(parent_of(cur, x) == parent_of(a, x));
            let j = s.index_of(parent_of(a, x));
            assert(s[j] == parent_of(a, x));
            lemma_parent(a, x);
            assert(o.contains(parent_of(a, x)));
            assert(o.contains(x));
            let u = o.index_of(x);
            assert(o[u] == x);
        }
    }
    assert forall|x: u32|
        #![trigger next.nd(x)]
        (x as int) < a.nodes@.len() && a.live(x) && x != 0 && o.index_of(parent_of(a, x)) >= t - 1 && !survives(a, x)
        implies next.nd(x) == a.nd(x) by {
        if o.index_of(parent_of(a, x)) == t - 1 {
            lemma_parent(a, x);
            assert(o.contains(parent_of(a, x)));
            assert(parent_of(a, x) == pp);
            let j = s.index_of(x);
            assert(s[j] == x);
        } else {
            assert(cur.nd(x) == a.nd(x));
            assert(!cur.live(x));
            if s.contains(x) {
                let j = s.index_of(x);
                assert(s[j] == x);
            }
        }
    }
    assert forall|x: u32| #![trigger next.nd(x)] (x as int) < a.nodes@.len() implies next.nd(x).last_child
        == last_child_upto(a, o, t - 1, x) by {
        if s.contains(x) {
            let j = s.index_of(x);
            assert(s[j] == x);
            if head_idx(s, fus, j) == j {
                assert forall|k: int| 0 <= k < s.len() implies cur.tree@[#[trigger] s[k]] == own_fused_map(a)[s[k]] by {
                }
                lemma_gathered_congr(cur.tree@, own_fused_map(a), s, fus, j, s.len() as int);
                assert(own_fused_map(a)[x] == own_fused(a, x));
            }
        } else {
            if a.live(x) && x != 0 {
                lemma_parent(a, x);
                assert(o.contains(parent_of(a, x)));
                assert(parent_of(a, x) != pp);
                assert(o.index_of(parent_of(a, x)) != t - 1);
            }
            assert(last_child_upto(a, o, t - 1, x) == last_child_upto(a, o, t, x));
        }
    }
}

/// Fuse adjacent lists of the same type throughout the chapter, bottom-up
/// (every node's children are fused before the node's own siblings are).
pub fn fuse_lists(chapter: &mut Chapter)
    requires
        old(chapter).wf(),
    ensures
        final(chapter).wf(),
        final(chapter).same_content(*old(chapter)),
        final(chapter).tree@ == fused_tree(*old(chapter)),
        fusion_maximal(*old(chapter)) ==> *final(chapter) == *old(chapter),
        final(chapter).nodes@.len() == old(chapter).nodes@.len(),
        forall|x: u32|
            #![trigger final(chapter).nd(x)]
            (x as int) < old(chapter).nodes@.len() && !final(chapter).live(x) ==> final(chapter).nd(x) == old(chapter).nd(x),
        final(chapter).nd(0) == old(chapter).nd(0),
        forall|x: u32|
            #![trigger final(chapter).nd(x)]
            (x as int) < old(chapter).nodes@.len() ==> final(chapter).nd(x).last_child == fused_last_child(*old(chapter), x),
{
    let ghost a = *chapter;
    let order = top_down_order(chapter);
    let mut t = order.len();
    proof {
        assert forall|x: u32| #[trigger] chapter.live(x) implies chapter.kids(x) == (if order@.index_of(x) < t {
            a.kids(x)
        } else if x == 0 || order@.index_of(parent_of(a, x)) < t {
            own_fused(a, x)
        } else {
            fused_kids(a, x)
        }) by {
            assert(order@.contains(x));
        }
        assert forall|x: u32| #[trigger] chapter.live(x) <==> (a.live(x) && (x == 0 || order@.index_of(
            parent_of(a, x),
        ) < t || survives(a, x))) by {
            if a.live(x) && x != 0 {
                lemma_parent(a, x);
                assert(order@.contains(parent_of(a, x)));
            }
        }
        assert forall|x: u32| a.live(x) && x != 0 implies 0 <= #[trigger] order@.index_of(parent_of(a, x)) < t by {
            lemma_parent(a, x);
            assert(order@.contains(parent_of(a, x)));
        }
        assert(nodes_upto(a, *chapter, order@, t as int));
    }
    while t > 0
        invariant
            a.wf(),
            chapter.wf(),
            chapter.same_content(a),
            0 <= t <= order@.len(),
            order@.no_duplicates(),
            forall|x: u32| a.live(x) <==> order@.contains(x),
            forall|u: int, v: int|
                0 <= u < order@.len() && 0 <= v < order@.len() && order@[u] != 0 && order@[v] == parent_of(a, order@[u]) ==> v < u,
            fused_upto(a, *chapter, order@, t as int),
            fusion_maximal(a) ==> *chapter == a,
            nodes_upto(a, *chapter, order@, t as int),
        decreases t,
    {
        t = t - 1;
        let node = order[t];
        let ghost cur = *chapter;
        proof {
            assert(order@.contains(node));
            assert(order@.index_of(node) == t);
            if node != 0 {
                lemma_parent(a, node);
                assert(order@.contains(parent_of(a, node)));
                let v = order@.index_of(parent_of(a, node));
                assert(v < t);
            }
            assert(cur.live(node));
            if fusion_maximal(a) {
                assert forall|j: int| 0 <= j && j + 1 < cur.kids(node).len() implies !fusable(
                    cur,
                    #[trigger] cur.kids(node)[j],
                    cur.kids(node)[j + 1],
                ) by {
                    assert(!fusable(a, a.kids(node)[j], a.kids(node)[j + 1]));
                }
            }
        }
        fuse_list_siblings(chapter, NodeId(node));
        proof {
            assert(chapter.same_content(a)) by {
                assert(chapter.same_content(cur));
            }
            lemma_visit_step(a, cur, *chapter, order@, t + 1);
            lemma_visit_nodes(a, cur, *chapter, order@, t + 1);
        }
    }
    proof {
        assert forall|x: u32| a.live(x) && x != 0 implies 0 <= #[trigger] order@.index_of(parent_of(a, x)) by {
            lemma_parent(a, x);
            assert(order@.contains(parent_of(a, x)));
        }
        assert(a.live(0));
        assert forall|x: u32|
            #![trigger chapter.nd(x)]
            (x as int) < a.nodes@.len() && !chapter.live(x) implies chapter.nd(x) == a.nd(x) by {
        }
        assert forall|x: u32|
            #![trigger chapter.nd(x)]
            (x as int) < a.nodes@.len() implies chapter.nd(x).last_child == fused_last_child(a, x) by {
            assert(last_child_upto(a, order@, 0, x) == fused_last_child(a, x));
        }
        assert(chapter.tree@ =~= fused_tree(a)) by {
            assert forall|x: u32| chapter.tree@.dom().contains(x) <==> fused_tree(a).dom().contains(x) by {
                assert(chapter.live(x) == chapter.tree@.dom().contains(x));
                if a.live(x) && x != 0 {
                    lemma_parent(a, x);
                    assert(order@.contains(parent_of(a, x)));
                }
            }
            assert forall|x: u32| #[trigger] chapter.tree@.dom().contains(x) implies chapter.tree@[x] == fused_tree(a)[x] by {
                assert(chapter.live(x));
                assert(order@.contains(x));
                if x != 0 {
                    lemma_parent(a, x);
                    assert(order@.contains(parent_of(a, x)));
                }
            }
        }
    }
}


/// Law: neighbouring survivors of a fused run of siblings can never be
/// fused with each other: fusion merges every run as far as it goes.
pub proof fn law_survivors_not_fusable(s: Seq<u32>, fus: spec_fn(u32, u32) -> bool, m: int, k: int)
    requires
        0 <= m <= s.len(),
        0 <= k,
        k + 1 < survivors(s, fus, m).len(),
    ensures
        !fus(survivors(s, fus, m)[k], survivors(s, fus, m)[k + 1]),
    decreases m,
{
    let prev = survivors(s, fus, m - 1);
    assert(survivors(s, fus, 0) == Seq::<u32>::empty());
    if k + 1 < prev.len() {
        law_survivors_not_fusable(s, fus, m - 1, k);
        assert(survivors(s, fus, m)[k] == prev[k]);
        assert(survivors(s, fus, m)[k + 1] == prev[k + 1]);
    } else {
        lemma_survivors_last(s, fus, m - 1);
        lemma_head_idx_bounds(s, fus, m - 2);
        assert(survivors(s, fus, m)[k] == prev.last());
        assert(survivors(s, fus, m)[k + 1] == s[m - 1]);
    }
}

/// Law: once a node's children are fused, no two neighbouring children are
/// lists that could still be fused (same kind and style, no semantic
/// attributes).
pub proof fn law_fused_children_maximal(ch: Chapter, p: u32, k: int)
    requires
        0 <= k,
        k + 1 < own_fused(ch, p).len(),
    ensures
        !fusable(ch, own_fused(ch, p)[k], own_fused(ch, p)[k + 1]),
{
    law_survivors_not_fusable(ch.kids(p), fus_of(ch), ch.kids(p).len() as int, k);
}

/// The position of an attached non-root node among its parent's children.
proof fn lemma_position_in_parent(ch: Chapter, x: u32)
    requires
        ch.wf(),
        ch.live(x),
        x != 0,
    ensures
        ch.live(parent_of(ch, x)),
        0 <= ch.kids(parent_of(ch, x)).index_of(x) < ch.kids(parent_of(ch, x)).len(),
        ch.kids(parent_of(ch, x))[ch.kids(parent_of(ch, x)).index_of(x)] == x,
        ch.kids(parent_of(ch, x)).no_duplicates(),
{
    lemma_parent(ch, x);
    lemma_live(ch, parent_of(ch, x));
}

/// Law: a node that carries a semantic attribute (an id, an href, a list
/// start) is never fused away.
pub proof fn law_attributed_nodes_kept(ch: Chapter, x: u32)
    requires
        ch.wf(),
        ch.live(x),
        ch.semantics.has_attrs(x),
    ensures
        fused_tree(ch).dom().contains(x),
{
    if x != 0 {
        lemma_position_in_parent(ch, x);
        let s = ch.kids(parent_of(ch, x));
        let i = s.index_of(x);
        if i > 0 {
            assert(!fusable(ch, s[head_idx(s, fus_of(ch), i - 1)], s[i]));
        }
    }
}

/// Law: a node that carries a semantic attribute (an id, an href, a list
/// start) neither is absorbed by an earlier list nor absorbs a later one:
/// it stays in the tree, and its children after fusion are its own
/// children, fused among themselves, and no others.
pub proof fn law_attributed_nodes_keep_their_children(ch: Chapter, x: u32)
    requires
        ch.wf(),
        ch.live(x),
        ch.semantics.has_attrs(x),
    ensures
        fused_tree(ch).dom().contains(x),
        fused_tree(ch)[x] == own_fused(ch, x),
{
    law_attributed_nodes_kept(ch, x);
    if x != 0 {
        lemma_position_in_parent(ch, x);
        let p = parent_of(ch, x);
        let s = ch.kids(p);
        let f = fus_of(ch);
        let i = s.index_of(x);
        assert(head_idx(s, f, i) == i);
        lemma_gathered_fresh(own_fused_map(ch), s, f, i);
        assert(own_fused_map(ch)[x] == own_fused(ch, x));
        if i + 1 < s.len() {
            assert(!fusable(ch, s[i], s[i + 1]));
            assert(head_idx(s, f, i + 1) == i + 1);
            assert(gathered(own_fused_map(ch), s, f, i, i + 2) == gathered(own_fused_map(ch), s, f, i, i + 1)
                + Seq::<u32>::empty());
            assert(gathered(own_fused_map(ch), s, f, i, i + 1) + Seq::<u32>::empty() =~= gathered(
                own_fused_map(ch),
                s,
                f,
                i,
                i + 1,
            ));
            lemma_gathered_stable(own_fused_map(ch), s, f, i, i + 2, s.len() as int);
        }
    }
}

/// Law: a node that is not a list is never fused away.
pub proof fn law_non_lists_kept(ch: Chapter, x: u32)
    requires
        ch.wf(),
        ch.live(x),
        ch.nd(x).role != Role::OrderedList,
        ch.nd(x).role != Role::UnorderedList,
    ensures
        fused_tree(ch).dom().contains(x),
{
    if x != 0 {
        lemma_position_in_parent(ch, x);
        let s = ch.kids(parent_of(ch, x));
        let i = s.index_of(x);
        if i > 0 {
            assert(!fusable(ch, s[head_idx(s, fus_of(ch), i - 1)], s[i]));
        }
    }
}

/// Law: a node disappears only when it is a list fused into an earlier
/// sibling list that survives, of the same kind and style; its previous
/// sibling is then a list of the same kind and style too, and neither
/// carries a semantic attribute.
pub proof fn law_removed_only_by_fusion(ch: Chapter, x: u32)
    requires
        ch.wf(),
        ch.live(x),
        !fused_tree(ch).dom().contains(x),
    ensures
        x != 0,
        exists|j: int|
            0 <= j < ch.kids(parent_of(ch, x)).index_of(x) && survives(ch, #[trigger] ch.kids(parent_of(ch, x))[j])
                && fusable(ch, ch.kids(parent_of(ch, x))[j], x),
        ch.kids(parent_of(ch, x)).index_of(x) > 0,
        fusable(ch, ch.kids(parent_of(ch, x))[ch.kids(parent_of(ch, x)).index_of(x) - 1], x),
        ({
            let prev = ch.kids(parent_of(ch, x))[ch.kids(parent_of(ch, x)).index_of(x) - 1];
            &&& ch.nd(x).role == Role::OrderedList || ch.nd(x).role == Role::UnorderedList
            &&& ch.nd(prev).role == ch.nd(x).role
            &&& ch.nd(prev).style == ch.nd(x).style
            &&& !ch.semantics.has_attrs(prev)
            &&& !ch.semantics.has_attrs(x)
        }),
{
    lemma_position_in_parent(ch, x);
    let p = parent_of(ch, x);
    let s = ch.kids(p);
    let f = fus_of(ch);
    let i = s.index_of(x);
    lemma_head_idx_bounds(s, f, i);
    let j = head_idx(s, f, i - 1);
    lemma_head_idx_bounds(s, f, i - 1);
    lemma_head_of_head(s, f, i - 1);
    lemma_kid(ch, p, j);
    lemma_parent(ch, s[j]);
    assert(s.index_of(s[j]) == j) by {
        assert(s.contains(s[j]));
    }
    assert(survives(ch, s[j]));
    if i - 1 != j {
        lemma_head_idx_bounds(s, f, i - 2);
        assert(f(s[head_idx(s, f, i - 2)], s[i - 1]));
        assert(fusable(ch, s[j], s[i - 1]));
        assert(fusable(ch, s[j], s[i]));
    }
}


/// Law: after fusing, no two neighbouring children of the root are lists
/// that could still be fused.
pub proof fn law_root_children_maximal(ch: Chapter, k: int)
    requires
        ch.wf(),
        0 <= k,
        k + 1 < fused_tree(ch)[0].len(),
    ensures
        !fusable(ch, fused_tree(ch)[0][k], fused_tree(ch)[0][k + 1]),
{
    assert(fused_tree(ch).dom().contains(0));
    assert(fused_tree(ch)[0] == own_fused(ch, 0));
    law_fused_children_maximal(ch, 0, k);
}


/// No attached node of `ch` has two neighbouring children that are
/// fusable lists.
pub open spec fn fusion_maximal(ch: Chapter) -> bool {
    forall|p: u32, i: int|
        ch.live(p) && 0 <= i && i + 1 < ch.kids(p).len() ==> !fusable(ch, #[trigger] ch.kids(p)[i], ch.kids(p)[i + 1])
}

/// With no neighbouring fusable pair, every sibling heads its own run.
proof fn lemma_heads_identity(s: Seq<u32>, fus: spec_fn(u32, u32) -> bool, i: int)
    requires
        0 <= i < s.len(),
        forall|j: int| 0 <= j && j + 1 < s.len() ==> !fus(#[trigger] s[j], s[j + 1]),
    ensures
        head_idx(s, fus, i) == i,
    decreases i,
{
    if i > 0 {
        lemma_heads_identity(s, fus, i - 1);
        assert(!fus(s[i - 1], s[i]));
    }
}

/// With no neighbouring fusable pair, every sibling survives.
proof fn lemma_survivors_identity(s: Seq<u32>, fus: spec_fn(u32, u32) -> bool, m: int)
    requires
        0 <= m <= s.len(),
        forall|j: int| 0 <= j && j + 1 < s.len() ==> !fus(#[trigger] s[j], s[j + 1]),
    ensures
        survivors(s, fus, m) == s.take(m),
    decreases m,
{
    if m > 0 {
        lemma_survivors_identity(s, fus, m - 1);
        lemma_heads_identity(s, fus, m - 1);
        assert(s.take(m - 1).push(s[m - 1]) =~= s.take(m));
    } else {
        assert(s.take(0) =~= Seq::<u32>::empty());
    }
}

/// With no neighbouring fusable pair, each list gathers only its own
/// children.
proof fn lemma_gathered_identity(
    tree: Map<u32, Seq<u32>>,
    s: Seq<u32>,
    fus: spec_fn(u32, u32) -> bool,
    k: int,
    m: int,
)
    requires
        0 <= k < s.len(),
        0 <= m <= s.len(),
        forall|j: int| 0 <= j && j + 1 < s.len() ==> !fus(#[trigger] s[j], s[j + 1]),
    ensures
        gathered(tree, s, fus, k, m) == if m > k {
            tree[s[k]]
        } else {
            Seq::<u32>::empty()
        },
    decreases m,
{
    if m > 0 {
        lemma_gathered_identity(tree, s, fus, k, m - 1);
        lemma_heads_identity(s, fus, m - 1);
        if m - 1 == k {
            assert(Seq::<u32>::empty() + tree[s[k]] =~= tree[s[k]]);
        } else {
            assert(gathered(tree, s, fus, k, m - 1) + Seq::<u32>::empty() =~= gathered(tree, s, fus, k, m - 1));
        }
    }
}

/// Law: fusion leaves a chapter in which no node has two neighbouring
/// fusable lists as it is. So fusing a second time changes nothing
/// whenever the first fusion left no such pair; it can leave one, where
/// the last child of a list and the first child of the list fused into it
/// are fusable lists that become neighbours only then.
pub proof fn law_fusion_fixpoint(ch: Chapter)
    requires
        ch.wf(),
        fusion_maximal(ch),
    ensures
        fused_tree(ch) == ch.tree@,
{
    let f = fus_of(ch);
    assert forall|p: u32| #[trigger] ch.live(p) implies own_fused(ch, p) == ch.kids(p) by {
        let s = ch.kids(p);
        assert forall|j: int| 0 <= j && j + 1 < s.len() implies !f(#[trigger] s[j], s[j + 1]) by {
            assert(!fusable(ch, ch.kids(p)[j], ch.kids(p)[j + 1]));
        }
        lemma_survivors_identity(s, f, s.len() as int);
        assert(s.take(s.len() as int) == s);
    }
    assert forall|x: u32| #[trigger] ch.live(x) implies survives(ch, x) && fused_kids(ch, x) == ch.kids(x) by {
        if x != 0 {
            lemma_position_in_parent(ch, x);
            let p = parent_of(ch, x);
            let s = ch.kids(p);
            let i = s.index_of(x);
            assert forall|j: int| 0 <= j && j + 1 < s.len() implies !f(#[trigger] s[j], s[j + 1]) by {
                assert(!fusable(ch, ch.kids(p)[j], ch.kids(p)[j + 1]));
            }
            lemma_heads_identity(s, f, i);
            lemma_gathered_identity(own_fused_map(ch), s, f, i, s.len() as int);
            assert(own_fused_map(ch)[x] == own_fused(ch, x));
        }
    }
    assert forall|x: u32| #[trigger] fused_tree(ch).dom().contains(x) == ch.tree@.dom().contains(x) by {
        if ch.live(x) {
            assert(survives(ch, x));
        }
    }
    assert(fused_tree(ch).dom() =~= ch.tree@.dom());
    assert forall|x: u32| #[trigger] fused_tree(ch).dom().contains(x) implies fused_tree(ch)[x] == ch.tree@[x] by {
        assert(ch.live(x));
    }
    assert(fused_tree(ch) =~= ch.tree@);
}


/// The nodes of the forest `xs` of the tree `t` in document order
/// (preorder: each node, then its children's subtrees), down to `n` levels.
pub open spec fn preorder(t: Map<u32, Seq<u32>>, xs: Seq<u32>, n: nat) -> Seq<u32>
    decreases n, xs.len(),
{
    if n == 0 || xs.len() == 0 {
        Seq::empty()
    } else {
        preorder(t, xs.drop_last(), n) + seq![xs.last()] + preorder(t, t[xs.last()], (n - 1) as nat)
    }
}

/// The nodes of `ch` that fusion keeps.
pub open spec fn kept(ch: Chapter) -> spec_fn(u32) -> bool {
    |x: u32| fused_tree(ch).dom().contains(x)
}

/// Document order distributes over laying forests side by side.
proof fn lemma_preorder_concat(t: Map<u32, Seq<u32>>, a: Seq<u32>, b: Seq<u32>, n: nat)
    ensures
        preorder(t, a + b, n) == preorder(t, a, n) + preorder(t, b, n),
    decreases b.len(),
{
    if n == 0 {
    } else if b.len() == 0 {
        assert(a + b =~= a);
        assert(preorder(t, a, n) + Seq::<u32>::empty() =~= preorder(t, a, n));
    } else {
        lemma_preorder_concat(t, a, b.drop_last(), n);
        assert((a + b).drop_last() =~= a + b.drop_last());
        assert((a + b).last() == b.last());
        let tail = preorder(t, t[b.last()], (n - 1) as nat);
        assert(preorder(t, a, n) + preorder(t, b.drop_last(), n) + seq![b.last()] + tail =~= preorder(t, a, n) + (
        preorder(t, b.drop_last(), n) + seq![b.last()] + tail));
    }
}

/// A list stops gathering once no later sibling joins its run.
proof fn lemma_gathered_frozen(
    tree: Map<u32, Seq<u32>>,
    s: Seq<u32>,
    fus: spec_fn(u32, u32) -> bool,
    k: int,
    m1: int,
    m2: int,
)
    requires
        0 <= m1 <= m2,
        forall|j: int| m1 <= j < m2 ==> head_idx(s, fus, j) != k,
    ensures
        gathered(tree, s, fus, k, m2) == gathered(tree, s, fus, k, m1),
    decreases m2 - m1,
{
    if m2 > m1 {
        lemma_gathered_frozen(tree, s, fus, k, m1, m2 - 1);
        assert(gathered(tree, s, fus, k, m2 - 1) + Seq::<u32>::empty() =~= gathered(tree, s, fus, k, m2 - 1));
    }
}

/// Which children of an attached node fusion keeps, and what a kept child
/// holds afterwards.
proof fn lemma_fused_child(ch: Chapter, p: u32, k: int)
    requires
        ch.wf(),
        ch.live(p),
        0 <= k < ch.kids(p).len(),
    ensures
        fused_tree(ch).dom().contains(ch.kids(p)[k]) <==> head_idx(ch.kids(p), fus_of(ch), k) == k,
        head_idx(ch.kids(p), fus_of(ch), k) == k ==> fused_tree(ch)[ch.kids(p)[k]] == gathered(
            own_fused_map(ch),
            ch.kids(p),
            fus_of(ch),
            k,
            ch.kids(p).len() as int,
        ),
{
    let s = ch.kids(p);
    let x = s[k];
    lemma_live(ch, p);
    lemma_kid(ch, p, k);
    assert(parent_of(ch, x) == p);
    assert(s.index_of(x) == k) by {
        assert(s.contains(x));
        let i = s.index_of(x);
        assert(s[i] == x);
    }
}

/// Filtering a one-node sequence.
proof fn lemma_filter_single(x: u32, pred: spec_fn(u32) -> bool)
    ensures
        seq![x].filter(pred) == (if pred(x) {
            seq![x]
        } else {
            Seq::<u32>::empty()
        }),
{
    Seq::<u32>::empty().lemma_filter_push(x, pred);
    assert(Seq::<u32>::empty().push(x) =~= seq![x]);
    assert(Seq::<u32>::empty().filter(pred) =~= Seq::<u32>::empty());
}

/// The fused forest of the first `m` children `s` of a node, in document
/// order: each surviving child, then the fused children (down to `n - 1`
/// levels) of every list that joins its run.
pub open spec fn fused_run_order(ch: Chapter, s: Seq<u32>, m: int, n: nat) -> Seq<u32>
    decreases m,
{
    if m <= 0 {
        Seq::empty()
    } else {
        fused_run_order(ch, s, m - 1, n) + (if head_idx(s, fus_of(ch), m - 1) == m - 1 {
            seq![s[m - 1]]
        } else {
            Seq::<u32>::empty()
        }) + preorder(fused_tree(ch), own_fused(ch, s[m - 1]), (n - 1) as nat)
    }
}

/// Filtering the document order (before fusion) of the first `m` children of
/// `p` gives their fused run order, given the law one level down.
proof fn lemma_filter_side(ch: Chapter, p: u32, m: int, n: nat)
    requires
        ch.wf(),
        ch.live(p),
        n > 0,
        0 <= m <= ch.kids(p).len(),
        forall|q: u32|
            #[trigger] ch.live(q) ==> preorder(fused_tree(ch), own_fused(ch, q), (n - 1) as nat) == preorder(
                ch.tree@,
                ch.kids(q),
                (n - 1) as nat,
            ).filter(kept(ch)),
    ensures
        preorder(ch.tree@, ch.kids(p).take(m), n).filter(kept(ch)) == fused_run_order(ch, ch.kids(p), m, n),
    decreases m,
{
    let s = ch.kids(p);
    let t = ch.tree@;
    let kp = kept(ch);
    if m == 0 {
        assert(s.take(0) =~= Seq::<u32>::empty());
        assert(Seq::<u32>::empty().filter(kp) =~= Seq::<u32>::empty());
    } else {
        lemma_filter_side(ch, p, m - 1, n);
        let x = s[m - 1];
        assert(s.take(m).drop_last() =~= s.take(m - 1));
        assert(s.take(m).last() == x);
        let a = preorder(t, s.take(m - 1), n);
        let sub = preorder(t, t[x], (n - 1) as nat);
        assert(preorder(t, s.take(m), n) == a + seq![x] + sub);
        Seq::filter_distributes_over_add(a + seq![x], sub, kp);
        Seq::filter_distributes_over_add(a, seq![x], kp);
        lemma_kid(ch, p, m - 1);
        lemma_fused_child(ch, p, m - 1);
        assert(seq![x].filter(kp) == (if head_idx(s, fus_of(ch), m - 1) == m - 1 {
            seq![x]
        } else {
            Seq::<u32>::empty()
        })) by {
            lemma_filter_single(x, kp);
        }
        assert(ch.live(x));
        assert(t[x] == ch.kids(x));
    }
}

/// The fused run order of the first `m` children of `p`: the document
/// order of the fused tree over the earlier surviving children, then the
/// last survivor and what its run gathered so far.
proof fn lemma_fused_side(ch: Chapter, p: u32, m: int, n: nat)
    requires
        ch.wf(),
        ch.live(p),
        n > 0,
        1 <= m <= ch.kids(p).len(),
    ensures
        ({
            let s = ch.kids(p);
            let f = fus_of(ch);
            let h = head_idx(s, f, m - 1);
            fused_run_order(ch, s, m, n) == preorder(fused_tree(ch), survivors(s, f, m).drop_last(), n) + seq![s[h]]
                + preorder(fused_tree(ch), gathered(own_fused_map(ch), s, f, h, m), (n - 1) as nat)
        }),
    decreases m,
{
    let s = ch.kids(p);
    let f = fus_of(ch);
    let ft = fused_tree(ch);
    let om = own_fused_map(ch);
    let n1 = (n - 1) as nat;
    let x = s[m - 1];
    lemma_kid(ch, p, m - 1);
    assert(om[x] == own_fused(ch, x));
    let h = head_idx(s, f, m - 1);
    lemma_head_idx_bounds(s, f, m - 1);
    if m == 1 {
        assert(h == 0);
        assert(survivors(s, f, 0) =~= Seq::<u32>::empty());
        assert(survivors(s, f, 1) =~= seq![s[0]]);
        assert(survivors(s, f, 1).drop_last() =~= Seq::<u32>::empty());
        assert(gathered(om, s, f, 0, 0) =~= Seq::<u32>::empty());
        assert(gathered(om, s, f, 0, 1) =~= om[s[0]]);
        assert(fused_run_order(ch, s, 0, n) =~= Seq::<u32>::empty());
        assert(fused_run_order(ch, s, 1, n) =~= seq![s[0]] + preorder(ft, own_fused(ch, s[0]), n1));
        assert(preorder(ft, Seq::<u32>::empty(), n) =~= Seq::<u32>::empty());
    } else {
        lemma_fused_side(ch, p, m - 1, n);
        let h0 = head_idx(s, f, m - 2);
        lemma_head_idx_bounds(s, f, m - 2);
        let prev = survivors(s, f, m - 1);
        lemma_survivors_last(s, f, m - 1);
        if h == m - 1 {
            // A new run starts at `m - 1`.
            assert(survivors(s, f, m) == prev + seq![x]);
            assert(survivors(s, f, m).drop_last() =~= prev);
            lemma_head_of_head(s, f, m - 2);
            lemma_kid(ch, p, h0);
            lemma_fused_child(ch, p, h0);
            assert forall|j: int| m - 1 <= j < s.len() implies head_idx(s, f, j) != h0 by {
                lemma_head_idx_mono(s, f, m - 1, j);
            }
            lemma_gathered_frozen(om, s, f, h0, m - 1, s.len() as int);
            assert(ft[s[h0]] == gathered(om, s, f, h0, m - 1));
            assert(prev.drop_last().push(prev.last()) =~= prev);
            assert(preorder(ft, prev, n) == preorder(ft, prev.drop_last(), n) + seq![s[h0]] + preorder(ft, ft[s[h0]], n1));
            assert forall|j: int| 0 <= j < m - 1 implies head_idx(s, f, j) != m - 1 by {
                lemma_head_idx_bounds(s, f, j);
            }
            lemma_gathered_frozen(om, s, f, m - 1, 0, m - 1);
            assert(gathered(om, s, f, m - 1, 0) =~= Seq::<u32>::empty());
            assert(gathered(om, s, f, m - 1, m) =~= om[x]);
        } else {
            // `m - 1` joins the run of the last survivor.
            assert(h == h0);
            assert(survivors(s, f, m) =~= prev + Seq::<u32>::empty());
            assert(gathered(om, s, f, h, m) == gathered(om, s, f, h, m - 1) + om[x]);
            lemma_preorder_concat(ft, gathered(om, s, f, h, m - 1), om[x], n1);
        }
    }
}

/// The law of document order one forest at a time: the fused children of
/// an attached node, in document order down to `n` levels, are the nodes
/// of its subtrees before fusion that fusion keeps, in their order then.
proof fn lemma_order_kept(ch: Chapter, n: nat)
    requires
        ch.wf(),
    ensures
        forall|q: u32|
            #[trigger] ch.live(q) ==> preorder(fused_tree(ch), own_fused(ch, q), n) == preorder(ch.tree@, ch.kids(q), n).filter(
                kept(ch),
            ),
    decreases n,
{
    if n == 0 {
        assert forall|q: u32| #[trigger] ch.live(q) implies preorder(fused_tree(ch), own_fused(ch, q), n) == preorder(
            ch.tree@,
            ch.kids(q),
            n,
        ).filter(kept(ch)) by {
            assert(Seq::<u32>::empty().filter(kept(ch)) =~= Seq::<u32>::empty());
        }
    } else {
        lemma_order_kept(ch, (n - 1) as nat);
        assert forall|q: u32| #[trigger] ch.live(q) implies preorder(fused_tree(ch), own_fused(ch, q), n) == preorder(
            ch.tree@,
            ch.kids(q),
            n,
        ).filter(kept(ch)) by {
            let s = ch.kids(q);
            let f = fus_of(ch);
            let len = s.len() as int;
            lemma_filter_side(ch, q, len, n);
            assert(s.take(len) =~= s);
            if len == 0 {
                assert(survivors(s, f, 0) =~= Seq::<u32>::empty());
            } else {
                lemma_fused_side(ch, q, len, n);
                let h = head_idx(s, f, len - 1);
                lemma_head_idx_bounds(s, f, len - 1);
                lemma_head_of_head(s, f, len - 1);
                lemma_survivors_last(s, f, len);
                lemma_kid(ch, q, h);
                lemma_fused_child(ch, q, h);
                let sv = survivors(s, f, len);
                assert(sv.drop_last().push(sv.last()) =~= sv);
            }
        }
    }
}

/// Law: fusion keeps document order. Reading the fused tree from the root
/// in document order (down to `n` levels) gives the nodes that fusion
/// keeps, in the order the tree had them before fusion; the nodes left out are
/// the fused-away lists (see `law_removed_only_by_fusion`).
pub proof fn law_fusion_keeps_document_order(ch: Chapter, n: nat)
    requires
        ch.wf(),
    ensures
        preorder(fused_tree(ch), seq![0u32], n) == preorder(ch.tree@, seq![0u32], n).filter(kept(ch)),
{
    if n > 0 {
        lemma_order_kept(ch, (n - 1) as nat);
        let t = ch.tree@;
        let ft = fused_tree(ch);
        let n1 = (n - 1) as nat;
        let r = seq![0u32];
        assert(r.drop_last() =~= Seq::<u32>::empty());
        assert(r.last() == 0);
        assert(ft.dom().contains(0));
        assert(ft[0] == own_fused(ch, 0));
        assert(preorder(ft, Seq::<u32>::empty(), n) == Seq::<u32>::empty());
        assert(preorder(t, Seq::<u32>::empty(), n) == Seq::<u32>::empty());
        assert(preorder(ft, r, n) == preorder(ft, r.drop_last(), n) + seq![r.last()] + preorder(ft, ft[r.last()], n1));
        assert(preorder(t, r, n) == preorder(t, r.drop_last(), n) + seq![r.last()] + preorder(t, t[r.last()], n1));
        assert(preorder(ft, r, n) =~= r + preorder(ft, ft[0], n1));
        assert(preorder(t, r, n) =~= r + preorder(t, t[0], n1));
        Seq::filter_distributes_over_add(r, preorder(t, t[0], n1), kept(ch));
        lemma_filter_single(0u32, kept(ch));
    } else {
        assert(Seq::<u32>::empty().filter(kept(ch)) =~= Seq::<u32>::empty());
    }
}

} // verus!
