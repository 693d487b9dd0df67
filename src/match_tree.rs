//! The match finder of the encoder: a binary tree over the positions of the sliding
//! window, held in index arrays, and the search that walks it.

use vstd::prelude::*;

verus! {

/// The three link arrays of an `LzssTree`.
pub struct Links {
    pub parent: Seq<usize>,
    pub sml: Seq<usize>,
    pub big: Seq<usize>,
}

/// The links of a tree with `size` positions whose only node is position 0.
pub open spec fn initial_links(size: usize) -> Links {
    Links {
        parent: Seq::new(
            (size + 2) as nat,
            |i: int|
                if i == 0 {
                    size
                } else if i == size {
                    0
                } else {
                    (size + 1) as usize
                },
        ),
        sml: Seq::new((size + 2) as nat, |i: int| (size + 1) as usize),
        big: Seq::new(
            (size + 2) as nat,
            |i: int|
                if i == size {
                    0
                } else {
                    (size + 1) as usize
                },
        ),
    }
}

/// Unlinks `target`, which has at most one child: the child, or the absent link, takes
/// its place under its parent.
pub open spec fn detach_links(l: Links, unused: usize, target: usize) -> Links {
    let p = l.parent[target as int];
    let nxt = if l.big[target as int] == unused {
        l.sml[target as int]
    } else {
        l.big[target as int]
    };
    Links {
        parent: l.parent.update(nxt as int, p).update(target as int, unused),
        sml: if l.big[p as int] == target {
            l.sml
        } else {
            l.sml.update(p as int, nxt)
        },
        big: if l.big[p as int] == target {
            l.big.update(p as int, nxt)
        } else {
            l.big
        },
    }
}

/// Puts `nxt` in the place of `target`: under `target`'s parent, with `target`'s
/// children; `target` is unlinked.
pub open spec fn replace_links(l: Links, unused: usize, target: usize, nxt: usize) -> Links {
    let par = l.parent[target as int];
    let on_sml = l.sml[par as int] == target;
    let sml1 = if on_sml {
        l.sml.update(par as int, nxt)
    } else {
        l.sml
    };
    let big1 = if on_sml {
        l.big
    } else {
        l.big.update(par as int, nxt)
    };
    let s = sml1[target as int];
    let b = big1[target as int];
    Links {
        parent: l.parent.update(nxt as int, par).update(s as int, nxt).update(b as int, nxt).update(
            target as int,
            unused,
        ),
        sml: sml1.update(nxt as int, s),
        big: big1.update(nxt as int, b),
    }
}

/// Links `nxt` as the bigger (`go_big`) or smaller child of `target`, with no children.
pub open spec fn attach_links(l: Links, unused: usize, target: usize, nxt: usize, go_big: bool) -> Links {
    let big1 = if go_big {
        l.big.update(target as int, nxt)
    } else {
        l.big
    };
    let sml1 = if go_big {
        l.sml
    } else {
        l.sml.update(target as int, nxt)
    };
    Links {
        parent: l.parent.update(nxt as int, target),
        sml: sml1.update(nxt as int, unused),
        big: big1.update(nxt as int, unused),
    }
}

/// The node reached from `start` by following `k` bigger links.
pub open spec fn big_walk(big: Seq<usize>, start: usize, k: nat) -> usize
    decreases k,
{
    if k == 0 {
        start
    } else {
        big[big_walk(big, start, (k - 1) as nat) as int]
    }
}

/// Following bigger links from `start`, the `k`-th node is the first without one.
pub open spec fn walk_ends_at(big: Seq<usize>, unused: usize, start: usize, k: nat) -> bool {
    &&& big[big_walk(big, start, k) as int] == unused
    &&& forall|j: nat| j < k ==> big[#[trigger] big_walk(big, start, j) as int] != unused
}

/// The node with no bigger child that the bigger links lead to from `start`.
pub open spec fn rightmost(big: Seq<usize>, unused: usize, start: usize) -> usize {
    big_walk(big, start, choose|k: nat| walk_ends_at(big, unused, start, k))
}

proof fn lemma_rightmost(big: Seq<usize>, unused: usize, start: usize, k: nat)
    requires
        walk_ends_at(big, unused, start, k),
    ensures
        rightmost(big, unused, start) == big_walk(big, start, k),
{
    let c = choose|c: nat| walk_ends_at(big, unused, start, c);
    if c < k {
        assert(big[big_walk(big, start, c) as int] != unused);
    } else if c > k {
        assert(big[big_walk(big, start, k) as int] != unused);
    }
}

/// Unlinks `target` from the tree, if it is in it. A node with two children gives its
/// place to the node with no bigger child under its smaller child.
pub open spec fn connect_links(l: Links, unused: usize, target: usize) -> Links {
    if l.parent[target as int] == unused {
        l
    } else if l.big[target as int] == unused || l.sml[target as int] == unused {
        detach_links(l, unused, target)
    } else {
        let m = rightmost(l.big, unused, l.sml[target as int]);
        replace_links(detach_links(l, unused, m), unused, target, m)
    }
}

/// Binary tree over the positions of the sliding window, kept in three index arrays.
/// Index `size` is the root sentinel, whose "bigger" link holds the top node, and index
/// `size + 1` marks an absent link. A position is in the tree exactly when its parent
/// link is not absent. Nodes are never freed, only unlinked and linked again.
pub struct LzssTree {
    pub size: usize,
    pub root: usize,
    pub unused: usize,
    pub parent: Vec<usize>,
    pub sml: Vec<usize>,
    pub big: Vec<usize>,
    /// A rank that strictly falls from each node to its children.
    pub height: Ghost<Seq<int>>,
    /// A lower bound on the rank of every node in the tree.
    pub floor: Ghost<int>,
}

impl LzssTree {
    pub open spec fn links(&self) -> Links {
        Links { parent: self.parent@, sml: self.sml@, big: self.big@ }
    }

    /// Position `i` is a node of the tree.
    pub open spec fn holds(&self, i: int) -> bool {
        0 <= i < self.size && self.parent@[i] != self.unused
    }

    /// `c` is an acceptable child link of node `i`: absent, or a node whose parent is
    /// `i` and whose rank is lower.
    pub open spec fn linked(&self, i: int, c: usize) -> bool {
        c == self.unused || (self.holds(c as int) && self.parent@[c as int] == i
            && self.height@[c as int] < self.height@[i])
    }

    /// Node `i` is linked consistently with its children and its parent.
    pub open spec fn node_ok(&self, i: int) -> bool {
        &&& self.linked(i, self.sml@[i])
        &&& self.linked(i, self.big@[i])
        &&& (self.sml@[i] != self.big@[i] || self.sml@[i] == self.unused)
        &&& self.floor@ <= self.height@[i] < self.height@[self.root as int]
        &&& ((self.parent@[i] == self.root && self.big@[self.root as int] == i) || (self.holds(
            self.parent@[i] as int,
        ) && (self.sml@[self.parent@[i] as int] == i || self.big@[self.parent@[i] as int] == i)))
    }

    pub open spec fn wf(&self) -> bool {
        &&& 2 <= self.size <= 0x1_0000
        &&& self.root == self.size
        &&& self.unused == self.size + 1
        &&& self.parent@.len() == self.size + 2
        &&& self.sml@.len() == self.size + 2
        &&& self.big@.len() == self.size + 2
        &&& self.height@.len() == self.size + 2
        &&& forall|i: int| 0 <= i < self.size + 2 ==> #[trigger] self.parent@[i] < self.size + 2
        &&& forall|i: int| 0 <= i < self.size + 2 ==> #[trigger] self.sml@[i] < self.size + 2
        &&& forall|i: int| 0 <= i < self.size + 2 ==> #[trigger] self.big@[i] < self.size + 2
        &&& self.sml@[self.root as int] == self.unused
        &&& self.linked(self.root as int, self.big@[self.root as int])
        &&& forall|i: int| self.holds(i) ==> #[trigger] self.node_ok(i)
    }

    /// The nodes and the sentinels of two trees are the same, but for position `x`.
    pub open spec fn same_but(&self, other: &Self, x: int) -> bool {
        &&& self.size == other.size
        &&& self.root == other.root
        &&& self.unused == other.unused
        &&& forall|i: int| i != x ==> (#[trigger] self.holds(i) == other.holds(i))
    }

    /// A tree whose only node is position 0.
    pub fn new(tree_size: usize) -> (r: Self)
        requires
            2 <= tree_size <= 0x1_0000,
        ensures
            r.wf(),
            r.size == tree_size,
            r.root == tree_size,
            r.unused == tree_size + 1,
            r.links() == initial_links(tree_size),
            r.holds(0),
            forall|i: int| r.holds(i) ==> i == 0,
    {
        let n = tree_size + 2;
        let unused = tree_size + 1;
        let root = tree_size;

        let mut parent = vec![unused; n];
        let sml = vec![unused; n];
        let mut big = vec![unused; n];

        parent.set(0, root);
        parent.set(root, 0);
        big.set(root, 0);

        let r = LzssTree {
            size: tree_size,
            root,
            unused,
            parent,
            sml,
            big,
            height: Ghost(Seq::new(n as nat, |i: int| if i == root { 1int } else { 0int })),
            floor: Ghost(0int),
        };
        assert(r.holds(0));
        assert(r.parent@ =~= initial_links(tree_size).parent);
        assert(r.sml@ =~= initial_links(tree_size).sml);
        assert(r.big@ =~= initial_links(tree_size).big);
        r
    }

    /// Every node's chain of parents reaches the root, so a tree with a node has a top.
    proof fn lemma_top_exists(&self, i: int)
        requires
            self.wf(),
            self.holds(i),
        ensures
            self.big@[self.root as int] != self.unused,
        decreases self.height@[self.root as int] - self.height@[i],
    {
        assert(self.node_ok(i));
        if self.parent@[i] != self.root {
            assert(self.node_ok(self.parent@[i] as int));
            self.lemma_top_exists(self.parent@[i] as int);
        }
    }

    /// Unlinks a node that has at most one child; the child takes its place.
    #[verifier::rlimit(50)]
    fn detach_single(&mut self, target: usize)
        requires
            old(self).wf(),
            old(self).holds(target as int),
            old(self).big@[target as int] == old(self).unused || old(self).sml@[target as int]
                == old(self).unused,
        ensures
            final(self).wf(),
            final(self).links() == detach_links(old(self).links(), old(self).unused, target),
            !final(self).holds(target as int),
            final(self).same_but(old(self), target as int),
            final(self).height == old(self).height,
            final(self).floor == old(self).floor,
    {
        let parent = self.parent[target];
        let nxt = if self.big[target] == self.unused {
            self.sml[target]
        } else {
            self.big[target]
        };
        self.parent.set(nxt, parent);
        if self.big[parent] == target {
            self.big.set(parent, nxt);
        } else {
            self.sml.set(parent, nxt);
        }
        self.parent.set(target, self.unused);
        proof {
            let o = old(self);
            assert(o.node_ok(target as int));
            if nxt != self.unused {
                assert(o.node_ok(nxt as int));
            }
            if parent != self.root {
                assert(o.node_ok(parent as int));
            }
            assert forall|i: int| #[trigger] self.holds(i) implies o.holds(i) && i != target by {}
            assert forall|i: int| self.holds(i) implies #[trigger] self.node_ok(i) by {
                assert(o.holds(i));
                assert(o.node_ok(i));
                let c1 = o.sml@[i];
                let c2 = o.big@[i];
                if c1 != self.unused {
                    assert(o.node_ok(c1 as int));
                }
                if c2 != self.unused {
                    assert(o.node_ok(c2 as int));
                }
                let q = o.parent@[i];
                if q != self.root {
                    assert(o.node_ok(q as int));
                }
            }
        }
    }

    /// Unlinks `target` from the tree.
    fn connect(&mut self, target: usize)
        requires
            old(self).wf(),
            target < old(self).size,
        ensures
            final(self).wf(),
            final(self).links() == connect_links(old(self).links(), old(self).unused, target),
            !final(self).holds(target as int),
            final(self).same_but(old(self), target as int),
            final(self).floor == old(self).floor,
    {
        if self.parent[target] == self.unused {
            return;
        }
        if self.big[target] == self.unused || self.sml[target] == self.unused {
            self.detach_single(target);
        } else {
            assert(self.holds(target as int) && self.node_ok(target as int));
            let mut nxt = self.sml[target];
            let ghost start = nxt;
            let ghost mut steps: nat = 0;
            while self.big[nxt] != self.unused
                invariant
                    *self == *old(self),
                    nxt == big_walk(self.big@, start, steps),
                    forall|j: nat| j < steps ==> self.big@[#[trigger] big_walk(self.big@, start, j) as int] != self.unused,
                    self.wf(),
                    self.holds(target as int),
                    self.big@[target as int] != self.unused,
                    self.sml@[target as int] != self.unused,
                    self.holds(nxt as int),
                    self.height@[nxt as int] < self.height@[target as int],
                decreases self.height@[nxt as int] - self.floor@,
            {
                assert(self.node_ok(nxt as int));
                nxt = self.big[nxt];
                proof {
                    steps = steps + 1;
                }
                assert(self.node_ok(nxt as int));
            }
            proof {
                lemma_rightmost(self.big@, self.unused, start, steps);
            }
            self.detach_single(nxt);
            self.replace(target, nxt);
        }
    }

    #[verifier::rlimit(50)]
    /// Puts the free position `nxt` in the place of node `target`, which leaves the tree.
    fn replace(&mut self, target: usize, nxt: usize)
        requires
            old(self).wf(),
            old(self).holds(target as int),
            nxt < old(self).size,
            !old(self).holds(nxt as int),
        ensures
            final(self).wf(),
            final(self).links() == replace_links(old(self).links(), old(self).unused, target, nxt),
            final(self).holds(nxt as int),
            !final(self).holds(target as int),
            forall|i: int| i != target && i != nxt ==> (#[trigger] final(self).holds(i) == old(self).holds(i)),
            final(self).size == old(self).size,
            final(self).root == old(self).root,
            final(self).unused == old(self).unused,
            final(self).floor == old(self).floor,
    {
        let parent = self.parent[target];
        if self.sml[parent] == target {
            self.sml.set(parent, nxt);
        } else {
            self.big.set(parent, nxt);
        }
        let p = self.parent[target];
        self.parent.set(nxt, p);
        let s = self.sml[target];
        self.sml.set(nxt, s);
        let b = self.big[target];
        self.big.set(nxt, b);
        self.parent.set(s, nxt);
        self.parent.set(b, nxt);
        self.parent.set(target, self.unused);
        self.height = Ghost(self.height@.update(nxt as int, self.height@[target as int]));
        proof {
            let o = old(self);
            assert(o.node_ok(target as int));
            if s != self.unused {
                assert(o.node_ok(s as int));
            }
            if b != self.unused {
                assert(o.node_ok(b as int));
            }
            if p != self.root {
                assert(o.node_ok(p as int));
            }
            assert(self.holds(nxt as int));
            assert forall|i: int| i != target && i != nxt implies (#[trigger] self.holds(i) == o.holds(i)) by {}
            assert forall|i: int| self.holds(i) implies #[trigger] self.node_ok(i) by {
                if i != nxt {
                    assert(o.holds(i));
                    assert(o.node_ok(i));
                    let c1 = o.sml@[i];
                    let c2 = o.big@[i];
                    if c1 != self.unused {
                        assert(o.node_ok(c1 as int));
                    }
                    if c2 != self.unused {
                        assert(o.node_ok(c2 as int));
                    }
                    let q = o.parent@[i];
                    if q != self.root {
                        assert(o.node_ok(q as int));
                    }
                }
            }
        }
    }

    /// Follows the link of `target` on the side that `matching_result` picks (bigger for
    /// a result of 0 or more). Where that link is present, returns `(false, child)`; where
    /// it is absent, links the free position `nxt` there and returns `(true, target)`.
    fn additional_connect(&mut self, target: usize, nxt: usize, matching_result: i32) -> (r: (bool, usize))
        requires
            old(self).wf(),
            old(self).holds(target as int),
            nxt < old(self).size,
            !old(self).holds(nxt as int),
        ensures
            final(self).wf(),
            r.0 == ((if matching_result >= 0 {
                old(self).big@[target as int]
            } else {
                old(self).sml@[target as int]
            }) == old(self).unused),
            !r.0 ==> r.1 == (if matching_result >= 0 {
                old(self).big@[target as int]
            } else {
                old(self).sml@[target as int]
            }),
            r.0 ==> final(self).links() == attach_links(
                old(self).links(),
                old(self).unused,
                target,
                nxt,
                matching_result >= 0,
            ),
            !r.0 ==> *final(self) == *old(self) && final(self).holds(r.1 as int)
                && final(self).height@[r.1 as int] < old(self).height@[target as int],
            r.0 ==> final(self).holds(nxt as int) && r.1 == target,
            forall|i: int| i != nxt ==> (#[trigger] final(self).holds(i) == old(self).holds(i)),
            final(self).size == old(self).size,
            final(self).root == old(self).root,
            final(self).unused == old(self).unused,
    {
        assert(self.node_ok(target as int));
        let child_idx = if matching_result >= 0 {
            self.big[target]
        } else {
            self.sml[target]
        };
        if child_idx != self.unused {
            return (false, child_idx);
        }
        if matching_result >= 0 {
            self.big.set(target, nxt);
        } else {
            self.sml.set(target, nxt);
        }
        self.parent.set(nxt, target);
        self.big.set(nxt, self.unused);
        self.sml.set(nxt, self.unused);
        let ghost h = self.height@[target as int] - 1;
        self.height = Ghost(self.height@.update(nxt as int, h));
        self.floor = Ghost(if h < self.floor@ { h } else { self.floor@ });
        proof {
            let o = old(self);
            assert(o.node_ok(target as int));
            assert(self.holds(nxt as int));
            assert forall|i: int| i != nxt implies (#[trigger] self.holds(i) == o.holds(i)) by {}
            assert forall|i: int| self.holds(i) implies #[trigger] self.node_ok(i) by {
                if i != nxt {
                    assert(o.holds(i));
                    assert(o.node_ok(i));
                    let c1 = o.sml@[i];
                    let c2 = o.big@[i];
                    if c1 != self.unused {
                        assert(o.node_ok(c1 as int));
                    }
                    if c2 != self.unused {
                        assert(o.node_ok(c2 as int));
                    }
                    let q = o.parent@[i];
                    if q != self.root {
                        assert(o.node_ok(q as int));
                    }
                }
            }
        }
        (true, target)
    }

    /// The top node of the tree.
    fn get_root_big(&self) -> (r: usize)
        requires
            self.wf(),
        ensures
            r == self.big@[self.root as int],
    {
        self.big[self.root]
    }
}

/// Distance back from window slot `top` to window slot `t` in a window of 4096 slots,
/// counted the way round that ends at `top`.
pub open spec fn back_offset(top: int, t: int) -> int {
    if t <= top {
        top - t
    } else {
        top + 4096 - t
    }
}

/// What the search keeps between steps: the tree's links, the position reached and the
/// match found there.
pub struct FindState {
    pub links: Links,
    pub src_index: usize,
    pub window_top: usize,
    pub match_size: usize,
    pub match_target: usize,
}

/// Where in the input window slot `t` stands, seen from input position `si`: the last
/// position before `si` that falls in slot `t`.
pub open spec fn window_pos(si: int, t: int) -> int {
    (si / 4096) * 4096 + t - (if t > si % 4096 {
        4096int
    } else {
        0int
    })
}

/// How many bytes from `p1 + k` and from `p2 + k` on agree, counted from `k`, up to `cap`.
pub open spec fn common_run(src: Seq<u8>, p1: int, p2: int, k: nat, cap: nat) -> nat
    decreases cap - k,
{
    if k >= cap || src[p1 + k] != src[p2 + k] {
        k
    } else {
        common_run(src, p1, p2, k + 1, cap)
    }
}

/// The difference of the first bytes that disagree, or 0 where the run reached `cap`.
pub open spec fn run_diff(src: Seq<u8>, p1: int, p2: int, c: nat, cap: nat) -> int {
    if c < cap {
        src[p1 + c] as int - src[p2 + c] as int
    } else {
        0
    }
}

/// The length of the run that node `t` gives at position `si`.
pub open spec fn run_at(src: Seq<u8>, si: int, t: usize, cap: nat) -> nat {
    common_run(src, si, window_pos(si, t as int), 0, cap)
}

/// The child of `t` that the walk goes to next: the bigger one where the bytes of `t`
/// were not greater, else the smaller one.
pub open spec fn next_node(l: Links, src: Seq<u8>, si: int, t: usize, cap: nat) -> usize {
    let p2 = window_pos(si, t as int);
    if run_diff(src, si, p2, run_at(src, si, t, cap), cap) >= 0 {
        l.big[t as int]
    } else {
        l.sml[t as int]
    }
}

/// The walk down the tree for the match at `si`: before step `k`, the node visited,
/// the longest run so far (first found kept on ties) and its node.
pub open spec fn walk(l: Links, src: Seq<u8>, si: int, cap: nat, mt0: usize, k: nat) -> (usize, nat, usize)
    decreases k,
{
    if k == 0 {
        (l.big[4096], 0, mt0)
    } else {
        let (t, ms, mt) = walk(l, src, si, cap, mt0, (k - 1) as nat);
        let c = run_at(src, si, t, cap);
        if c > ms {
            (next_node(l, src, si, t, cap), c, t)
        } else {
            (next_node(l, src, si, t, cap), ms, mt)
        }
    }
}

/// The walk ends at step `k`: the node gives a new longest run that reaches `cap`, or
/// the child to go to is absent.
pub open spec fn walk_stops(l: Links, src: Seq<u8>, si: int, cap: nat, mt0: usize, k: nat) -> bool {
    let (t, ms, mt) = walk(l, src, si, cap, mt0, k);
    let c = run_at(src, si, t, cap);
    (c > ms && c == cap) || next_node(l, src, si, t, cap) == 4097
}

/// The walk ends at step `k` and at no step before.
pub open spec fn walk_ends_at_step(l: Links, src: Seq<u8>, si: int, cap: nat, mt0: usize, k: nat) -> bool {
    &&& walk_stops(l, src, si, cap, mt0, k)
    &&& forall|j: nat| j < k ==> !#[trigger] walk_stops(l, src, si, cap, mt0, j)
}

/// The step at which the walk ends.
pub open spec fn walk_len(l: Links, src: Seq<u8>, si: int, cap: nat, mt0: usize) -> nat {
    choose|k: nat| walk_ends_at_step(l, src, si, cap, mt0, k)
}

proof fn lemma_walk_len(l: Links, src: Seq<u8>, si: int, cap: nat, mt0: usize, k: nat)
    requires
        walk_ends_at_step(l, src, si, cap, mt0, k),
    ensures
        walk_len(l, src, si, cap, mt0) == k,
{
    let c = walk_len(l, src, si, cap, mt0);
    assert(walk_ends_at_step(l, src, si, cap, mt0, c));
    if c < k {
        assert(!walk_stops(l, src, si, cap, mt0, c));
    } else if c > k {
        assert(!walk_stops(l, src, si, cap, mt0, k));
    }
}

/// One step of the search with matches at most `mml` long: the next position goes into
/// the tree in place of what its window slot held, and the walk from the top looks for
/// the longest match there. The flag tells that the input ended, so nothing was searched.
pub open spec fn find_step(f: FindState, src: Seq<u8>, mml: nat) -> (FindState, bool) {
    let si = f.src_index + 1;
    let wt = ((f.window_top + 1) % 4096) as usize;
    let l1 = connect_links(f.links, 4097, wt);
    if src.len() - si <= 0 {
        (FindState { links: l1, src_index: si as usize, window_top: wt, match_size: 0, match_target: f.match_target }, true)
    } else {
        let cap: nat = if mml < src.len() - si {
            mml
        } else {
            (src.len() - si) as nat
        };
        let k = walk_len(l1, src, si, cap, f.match_target);
        let (t, ms, mt) = walk(l1, src, si, cap, f.match_target, k);
        let c = run_at(src, si, t, cap);
        let p2 = window_pos(si, t as int);
        let links = if c > ms && c == cap {
            replace_links(l1, 4097, t, wt)
        } else {
            attach_links(l1, 4097, t, wt, run_diff(src, si, p2, c, cap) >= 0)
        };
        (FindState {
            links,
            src_index: si as usize,
            window_top: wt,
            match_size: (if c > ms {
                c
            } else {
                ms
            }) as usize,
            match_target: if c > ms {
                t
            } else {
                mt
            },
        }, false)
    }
}

/// `cnt` steps of the search, ending early where the input ends.
pub open spec fn find_steps(f: FindState, src: Seq<u8>, mml: nat, cnt: nat) -> FindState
    decreases cnt,
{
    if cnt == 0 {
        f
    } else {
        let (g, ended) = find_step(f, src, mml);
        if ended {
            g
        } else {
            find_steps(g, src, mml, (cnt - 1) as nat)
        }
    }
}

/// Longest-match search over the input `src` by means of an `LzssTree`: the tree holds
/// the window positions already passed, and each step looks for the longest run of
/// bytes ahead that occurs at one of them.
pub struct LzssTreeFind {
    pub src_cnt: usize,
    pub window_size: usize,
    pub look_ahead_size: usize,
    pub max_match_len: usize,
    pub src_index: usize,
    pub match_target: usize,
    pub match_size: usize,
    pub window_top: usize,
    pub tree: LzssTree,
}

impl LzssTreeFind {
    pub open spec fn state(&self) -> FindState {
        FindState {
            links: self.tree.links(),
            src_index: self.src_index,
            window_top: self.window_top,
            match_size: self.match_size,
            match_target: self.match_target,
        }
    }

    /// The current match: `match_size` bytes at `src_index` repeat those that stand
    /// `back_offset(window_top, match_target)` bytes earlier.
    pub open spec fn match_ok(&self, src: Seq<u8>) -> bool {
        &&& self.match_size <= self.src_cnt - self.src_index
        &&& self.match_size <= self.max_match_len
        &&& self.match_size > 0 ==> {
            &&& self.match_target < 4096
            &&& 1 <= back_offset(self.window_top as int, self.match_target as int)
                <= self.src_index
            &&& forall|k: int|
                0 <= k < self.match_size ==> #[trigger] src[self.src_index + k] == src[self.src_index
                    - back_offset(self.window_top as int, self.match_target as int) + k]
        }
    }

    pub open spec fn wf(&self, src: Seq<u8>) -> bool {
        &&& self.tree.wf()
        &&& self.tree.size == self.window_size
        &&& self.window_size == 4096
        &&& self.look_ahead_size == 17
        &&& 2 <= self.max_match_len <= 17
        &&& self.src_cnt == src.len()
        &&& src.len() <= u32::MAX
        &&& self.src_index <= self.src_cnt
        &&& self.window_top == self.src_index % 4096
        &&& forall|i: int| #[trigger] self.tree.holds(i) ==> i <= self.src_index
        &&& self.src_index < self.src_cnt ==> self.tree.holds(self.window_top as int)
        &&& self.match_ok(src)
    }

    /// A search at the start of `src`, whose matches are at most `level` bytes long,
    /// `level` taken into `2..=look_ahead_size`.
    pub fn new(src: &[u8], window_size: usize, look_ahead_size: usize, level: usize) -> (r: Self)
        requires
            window_size == 4096,
            look_ahead_size == 17,
            src@.len() <= u32::MAX,
        ensures
            r.wf(src@),
            r.state() == (FindState {
                links: initial_links(4096),
                src_index: 0,
                window_top: 0,
                match_size: 0,
                match_target: 0,
            }),
            r.src_index == 0,
            r.match_size == 0,
            r.max_match_len == (if level < 2 {
                2
            } else if level > 17 {
                17
            } else {
                level
            }),
    {
        let max_match_len = if level < 2 {
            2
        } else if level > look_ahead_size {
            look_ahead_size
        } else {
            level
        };
        LzssTreeFind {
            src_cnt: src.len(),
            window_size,
            look_ahead_size,
            max_match_len,
            src_index: 0,
            match_target: 0,
            match_size: 0,
            window_top: 0,
            tree: LzssTree::new(window_size),
        }
    }

    /// Advances by `replace_cnt` positions. Each position passed goes into the tree; at
    /// each the longest match ahead is looked for, and the last one found is kept.
    #[verifier::rlimit(80)]
    pub fn proc(&mut self, src: &[u8], replace_cnt: usize)
        requires
            old(self).wf(src@),
            old(self).src_index + replace_cnt <= old(self).src_cnt,
        ensures
            final(self).wf(src@),
            final(self).state() == find_steps(
                old(self).state(),
                src@,
                old(self).max_match_len as nat,
                replace_cnt as nat,
            ),
            final(self).src_index == old(self).src_index + replace_cnt,
            final(self).max_match_len == old(self).max_match_len,
    {
        let ghost mml = self.max_match_len as nat;
        let mut n: usize = 0;
        while n < replace_cnt
            invariant
                self.wf(src@),
                mml == self.max_match_len,
                find_steps(self.state(), src@, mml, (replace_cnt - n) as nat) == find_steps(
                    old(self).state(),
                    src@,
                    mml,
                    replace_cnt as nat,
                ),
                n <= replace_cnt,
                self.src_index == old(self).src_index + n,
                old(self).src_index + replace_cnt <= self.src_cnt,
                self.max_match_len == old(self).max_match_len,
            decreases replace_cnt - n,
        {
            let ghost prev_top = self.window_top;
            let ghost f0 = self.state();
            self.src_index += 1;
            let src_page = self.src_index / self.window_size;
            self.window_top = (self.window_top + 1) % self.window_size;
            proof {
                vstd::arithmetic::div_mod::lemma_fundamental_div_mod(self.src_index as int, 4096);
            }
            self.tree.connect(self.window_top);
            proof {
                assert(self.tree.holds(prev_top as int));
                self.tree.lemma_top_exists(prev_top as int);
            }
            let ghost l1 = self.tree.links();
            let mut target = self.tree.get_root_big();
            self.match_size = 0;
            let src_left = self.src_cnt - self.src_index;
            if src_left == 0 {
                assert(self.state() == find_step(f0, src@, mml).0);
                return;
            }
            let matching_loop_cnt = if self.max_match_len < src_left {
                self.max_match_len
            } else {
                src_left
            };
            let ghost si = self.src_index as int;
            let ghost cap = matching_loop_cnt as nat;
            let ghost mt0 = self.match_target;
            let ghost mut j: nat = 0;
            assert(walk(l1, src@, si, cap, mt0, 0) == (target, self.match_size as nat, self.match_target));
            loop
                invariant_except_break
                    self.tree.holds(target as int),
                    !self.tree.holds(self.window_top as int),
                    self.tree.links() == l1,
                    walk(l1, src@, si, cap, mt0, j) == (target, self.match_size as nat, self.match_target),
                    forall|i: nat| i < j ==> !#[trigger] walk_stops(l1, src@, si, cap, mt0, i),
                invariant
                    si == self.src_index,
                    cap == matching_loop_cnt,
                    matching_loop_cnt == (if self.max_match_len < self.src_cnt - self.src_index {
                        self.max_match_len
                    } else {
                        (self.src_cnt - self.src_index) as usize
                    }),
                    mml == self.max_match_len,
                    l1 == connect_links(f0.links, 4097, self.window_top),
                    self.src_index == f0.src_index + 1,
                    self.window_top == (f0.window_top + 1) % 4096,
                    mt0 == f0.match_target,
                    self.tree.wf(),
                    self.tree.size == self.window_size,
                    self.window_size == 4096,
                    self.look_ahead_size == 17,
                    2 <= self.max_match_len <= 17,
                    self.max_match_len == old(self).max_match_len,
                    self.src_cnt == src@.len(),
                    src@.len() <= u32::MAX,
                    1 <= self.src_index < self.src_cnt,
                    self.src_index == old(self).src_index + n + 1,
                    self.window_top == self.src_index % 4096,
                    src_page == self.src_index / 4096,
                    self.src_index == src_page * 4096 + self.window_top,
                    matching_loop_cnt <= self.src_cnt - self.src_index,
                    matching_loop_cnt <= self.max_match_len,
                    forall|i: int| #[trigger]
                        self.tree.holds(i) ==> i < self.src_index || i == self.window_top,
                    self.match_ok(src@),
                ensures
                    self.tree.holds(self.window_top as int),
                    self.state() == find_step(f0, src@, mml).0,
                    !find_step(f0, src@, mml).1,
                decreases self.tree.height@[target as int] - self.tree.floor@,
            {
                assert(self.tree.node_ok(target as int));
                let p1 = self.src_index;
                let mut p2 = src_page * self.window_size + target;
                if target > self.src_index % self.window_size {
                    p2 = p2 - self.window_size;
                }
                assert(p1 - p2 == back_offset(self.window_top as int, target as int));
                assert(p2 == window_pos(si, target as int));
                let mut matching_counter: usize = 0;
                let mut matching_result: i32 = 0;
                while matching_counter < matching_loop_cnt
                    invariant_except_break
                        matching_result == 0,
                    invariant
                        matching_counter <= matching_loop_cnt,
                        matching_loop_cnt <= src@.len() - p1,
                        p1 < src@.len() <= u32::MAX,
                        p2 < p1,
                        forall|k: int|
                            0 <= k < matching_counter ==> #[trigger] src@[p1 + k] == src@[p2 + k],
                        common_run(src@, p1 as int, p2 as int, matching_counter as nat, matching_loop_cnt as nat)
                            == common_run(src@, p1 as int, p2 as int, 0, matching_loop_cnt as nat),
                    ensures
                        matching_counter <= matching_loop_cnt,
                        forall|k: int|
                            0 <= k < matching_counter ==> #[trigger] src@[p1 + k] == src@[p2 + k],
                        matching_counter == common_run(src@, p1 as int, p2 as int, 0, matching_loop_cnt as nat),
                        matching_result as int == run_diff(src@, p1 as int, p2 as int, matching_counter as nat, matching_loop_cnt as nat),
                    decreases matching_loop_cnt - matching_counter,
                {
                    let a = src[p1 + matching_counter] as i32;
                    let b = src[p2 + matching_counter] as i32;
                    matching_result = a - b;
                    if matching_result != 0 {
                        break;
                    }
                    matching_counter += 1;
                }

                assert(matching_counter == run_at(src@, si, target, cap));
                proof {
                    if j > 0 {
                        assert(walk(l1, src@, si, cap, mt0, j) == walk(l1, src@, si, cap, mt0, j));
                    }
                }
                if matching_counter > self.match_size {
                    self.match_size = matching_counter;
                    self.match_target = target;
                    if self.match_size == matching_loop_cnt {
                        self.tree.replace(target, self.window_top);
                        proof {
                            assert(walk_stops(l1, src@, si, cap, mt0, j));
                            lemma_walk_len(l1, src@, si, cap, mt0, j);
                            let fs = find_step(f0, src@, mml);
                            assert(src@.len() - si > 0);
                            assert(cap == (if mml < src@.len() - si { mml } else { (src@.len() - si) as nat }));
                            assert(walk_len(l1, src@, si, cap, mt0) == j);
                            assert(fs.0.links == self.tree.links());
                            assert(fs.0.match_size == self.match_size);
                            assert(fs.0.match_target == self.match_target);
                            assert(fs.0.src_index == self.src_index);
                            assert(fs.0.window_top == self.window_top);
                        }
                        break;
                    }
                }
                let (done, new_target) = self.tree.additional_connect(
                    target,
                    self.window_top,
                    matching_result,
                );
                assert(next_node(l1, src@, si, target, cap) == (if matching_result >= 0 {
                    l1.big[target as int]
                } else {
                    l1.sml[target as int]
                }));
                if done {
                    proof {
                        assert(walk_stops(l1, src@, si, cap, mt0, j));
                        lemma_walk_len(l1, src@, si, cap, mt0, j);
                            let fs = find_step(f0, src@, mml);
                            assert(src@.len() - si > 0);
                            assert(cap == (if mml < src@.len() - si { mml } else { (src@.len() - si) as nat }));
                            assert(walk_len(l1, src@, si, cap, mt0) == j);
                            assert(fs.0.links == self.tree.links());
                            assert(fs.0.match_size == self.match_size);
                            assert(fs.0.match_target == self.match_target);
                            assert(fs.0.src_index == self.src_index);
                            assert(fs.0.window_top == self.window_top);
                    }
                    break;
                }
                proof {
                    assert(!walk_stops(l1, src@, si, cap, mt0, j));
                    j = j + 1;
                }
                target = new_target;
                assert(self.tree.node_ok(target as int));
            }
            n += 1;
        }
    }
}

} // verus!
