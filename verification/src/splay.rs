//! A top-down splay tree: a self-adjusting ordered set of integer keys.
//!
//! Every operation splays the key it touches to the root, so repeating an
//! operation on the same key finds it at the root at once. The splay is the
//! standard top-down scheme — zig, zig-zig and zig-zag steps, no parent
//! pointers — written over an owned tree, with the two auxiliary trees of
//! the imperative formulation living in the recursion.
//!
//! The contracts speak of the set of keys: `find` splays and reports
//! membership, `insert` splits the splayed root and reports whether the key
//! was new, `remove` splays the key out and re-roots over its subtrees, and
//! `walk` lists the keys in strictly ascending order.

use vstd::prelude::*;

verus! {

/// An ordered binary tree of keys.
pub enum Tree {
    /// No keys.
    Leaf,
    /// A key between two subtrees.
    Node {
        /// The key at this node.
        key: u64,
        /// Keys less than `key`.
        left: Box<Tree>,
        /// Keys greater than `key`.
        right: Box<Tree>,
    },
}

impl Tree {
    /// The set of keys in the tree.
    pub open spec fn keys(self) -> Set<u64>
        decreases self,
    {
        match self {
            Tree::Leaf => Set::empty(),
            Tree::Node { key, left, right } => left.keys().union(right.keys()).insert(key),
        }
    }

    /// The search-tree order: every key on the left is smaller, every key on
    /// the right larger, recursively.
    pub open spec fn is_bst(self) -> bool
        decreases self,
    {
        match self {
            Tree::Leaf => true,
            Tree::Node { key, left, right } => {
                &&& left.is_bst()
                &&& right.is_bst()
                &&& forall|k: u64| left.keys().contains(k) ==> k < key
                &&& forall|k: u64| right.keys().contains(k) ==> k > key
            },
        }
    }

    /// The keys in symmetric order.
    pub open spec fn inorder(self) -> Seq<u64>
        decreases self,
    {
        match self {
            Tree::Leaf => Seq::empty(),
            Tree::Node { key, left, right } => left.inorder().add(
                seq![key].add(right.inorder()),
            ),
        }
    }
}

/// A node holds its own key.
pub proof fn lemma_node_keys(t: Tree)
    requires
        t is Node,
    ensures
        t.keys().contains(t->key),
        t.keys() != Set::<u64>::empty(),
{
    assert(t.keys().contains(t->key));
    assert(!Set::<u64>::empty().contains(t->key));
}

/// Taking a search-tree node apart: both sides are search trees, bounded by
/// the root's key, and the key set decomposes.
pub proof fn lemma_bst_node(t: Tree)
    requires
        t is Node,
        t.is_bst(),
    ensures
        (*t->left).is_bst(),
        (*t->right).is_bst(),
        forall|k: u64| #[trigger] (*t->left).keys().contains(k) ==> k < t->key,
        forall|k: u64| #[trigger] (*t->right).keys().contains(k) ==> k > t->key,
        t.keys() =~= (*t->left).keys().union((*t->right).keys()).insert(t->key),
        t.keys().contains(t->key),
{
}

/// Putting a search-tree node together: bounded search trees on both sides
/// make a search tree, and the key set assembles.
pub proof fn lemma_node_bst(key: u64, l: Box<Tree>, r: Box<Tree>)
    requires
        (*l).is_bst(),
        (*r).is_bst(),
        forall|k: u64| #[trigger] (*l).keys().contains(k) ==> k < key,
        forall|k: u64| #[trigger] (*r).keys().contains(k) ==> k > key,
    ensures
        (Tree::Node { key, left: l, right: r }).is_bst(),
        (Tree::Node { key, left: l, right: r }).keys() =~= (*l).keys().union(
            (*r).keys(),
        ).insert(key),
        (Tree::Node { key, left: l, right: r }).keys().contains(key),
{
}

/// Splay `key` in `t`: the same search tree, re-rooted so that `key` stands
/// at the root when present; when absent, the root is the nearest key, and
/// the subtree away from `key` holds no key between them.
fn splay(t: Tree, key: u64) -> (r: Tree)
    requires
        t.is_bst(),
    ensures
        r.is_bst(),
        r.keys() =~= t.keys(),
        r is Node <==> t is Node,
        t.keys().contains(key) ==> r is Node && r->key == key,
        (!t.keys().contains(key) && r is Node && r->key < key) ==> forall|k: u64| #[trigger]
            (*r->right).keys().contains(k) ==> k > key,
        (!t.keys().contains(key) && r is Node && r->key > key) ==> forall|k: u64| #[trigger]
            (*r->left).keys().contains(k) ==> k < key,
    decreases t,
{
    let ghost t0 = t;
    match t {
        Tree::Leaf => Tree::Leaf,
        Tree::Node { key: k, left: l, right: r } => {
            proof {
                lemma_bst_node(t0);
            }
            let ghost gl = *t0->left;
            let ghost gr = *t0->right;
            if key == k {
                let out = Tree::Node { key: k, left: l, right: r };
                proof {
                    assert(out == t0);
                }
                out
            } else if key < k {
                match *l {
                    Tree::Leaf => {
                        let out = Tree::Node { key: k, left: l, right: r };
                        proof {
                            assert(out == t0);
                            assert(!t0.keys().contains(key));
                        }
                        out
                    },
                    Tree::Node { key: lk, left: ll, right: lr } => {
                        proof {
                            lemma_bst_node(gl);
                        }
                        let ghost gll = *gl->left;
                        let ghost glr = *gl->right;
                        proof {
                            assert forall|x: u64| #[trigger] glr.keys().contains(x) implies x
                                < k && x > lk by {
                                assert(gl.keys().contains(x));
                            }
                            assert forall|x: u64| #[trigger] gll.keys().contains(x) implies x
                                < k && x < lk by {
                                assert(gl.keys().contains(x));
                            }
                        }
                        if key < lk {
                            // Zig-zig: splay deep left, then rotate twice.
                            let s = splay(*ll, key);
                            let ghost gs = s;
                            match s {
                                Tree::Leaf => {
                                    let inner = Tree::Node { key: k, left: lr, right: r };
                                    proof {
                                        lemma_node_bst(k, t0->left->right, t0->right);
                                    }
                                    let out = Tree::Node {
                                        key: lk,
                                        left: Box::new(Tree::Leaf),
                                        right: Box::new(inner),
                                    };
                                    proof {
                                        lemma_node_bst(lk, Box::new(Tree::Leaf), Box::new(
                                            Tree::Node {
                                                key: k,
                                                left: t0->left->right,
                                                right: t0->right,
                                            },
                                        ));
                                        assert(out.keys() =~= t0.keys());
                                        assert(!t0.keys().contains(key));
                                    }
                                    out
                                },
                                Tree::Node { key: sk, left: sl, right: sr } => {
                                    proof {
                                        lemma_bst_node(gs);
                                        assert(gs.keys().contains(sk));
                                        assert(gll.keys().contains(sk));
                                        assert forall|x: u64| #[trigger]
                                            (*gs->right).keys().contains(x) implies x < lk
                                            && x < k by {
                                            assert(gs.keys().contains(x));
                                            assert(gll.keys().contains(x));
                                        }
                                        assert forall|x: u64| #[trigger]
                                            (*gs->left).keys().contains(x) implies x < lk && x
                                            < k by {
                                            assert(gs.keys().contains(x));
                                            assert(gll.keys().contains(x));
                                        }
                                    }
                                    let inner1 = Tree::Node { key: k, left: lr, right: r };
                                    let ghost ginner1 = Tree::Node {
                                        key: k,
                                        left: t0->left->right,
                                        right: t0->right,
                                    };
                                    proof {
                                        lemma_node_bst(k, t0->left->right, t0->right);
                                    }
                                    let inner2 = Tree::Node {
                                        key: lk,
                                        left: sr,
                                        right: Box::new(inner1),
                                    };
                                    let ghost ginner2 = Tree::Node {
                                        key: lk,
                                        left: gs->right,
                                        right: Box::new(ginner1),
                                    };
                                    proof {
                                        lemma_node_bst(lk, gs->right, Box::new(ginner1));
                                    }
                                    let out = Tree::Node {
                                        key: sk,
                                        left: sl,
                                        right: Box::new(inner2),
                                    };
                                    proof {
                                        lemma_node_bst(sk, gs->left, Box::new(ginner2));
                                        assert(out.keys() =~= t0.keys());
                                        if t0.keys().contains(key) {
                                            assert(gll.keys().contains(key));
                                        }
                                        if !t0.keys().contains(key) && sk < key {
                                            assert forall|x: u64| #[trigger]
                                                ginner2.keys().contains(x) implies x > key by {
                                                if (*gs->right).keys().contains(x) {
                                                    assert(!gll.keys().contains(key));
                                                }
                                            }
                                        }
                                    }
                                    out
                                },
                            }
                        } else if key > lk {
                            // Zig-zag: splay the inner subtree, link both.
                            let s = splay(*lr, key);
                            let ghost gs = s;
                            match s {
                                Tree::Leaf => {
                                    let inner = Tree::Node {
                                        key: k,
                                        left: Box::new(Tree::Leaf),
                                        right: r,
                                    };
                                    proof {
                                        lemma_node_bst(k, Box::new(Tree::Leaf), t0->right);
                                    }
                                    let out = Tree::Node {
                                        key: lk,
                                        left: ll,
                                        right: Box::new(inner),
                                    };
                                    proof {
                                        lemma_node_bst(lk, t0->left->left, Box::new(
                                            Tree::Node {
                                                key: k,
                                                left: Box::new(Tree::Leaf),
                                                right: t0->right,
                                            },
                                        ));
                                        assert(out.keys() =~= t0.keys());
                                        assert(!t0.keys().contains(key));
                                    }
                                    out
                                },
                                Tree::Node { key: sk, left: sl, right: sr } => {
                                    proof {
                                        lemma_bst_node(gs);
                                        assert(gs.keys().contains(sk));
                                        assert(glr.keys().contains(sk));
                                        assert forall|x: u64| #[trigger]
                                            (*gs->left).keys().contains(x) implies x > lk && x
                                            < k by {
                                            assert(gs.keys().contains(x));
                                            assert(glr.keys().contains(x));
                                        }
                                        assert forall|x: u64| #[trigger]
                                            (*gs->right).keys().contains(x) implies x > lk
                                            && x < k by {
                                            assert(gs.keys().contains(x));
                                            assert(glr.keys().contains(x));
                                        }
                                    }
                                    let nl = Tree::Node { key: lk, left: ll, right: sl };
                                    let ghost gnl = Tree::Node {
                                        key: lk,
                                        left: t0->left->left,
                                        right: gs->left,
                                    };
                                    proof {
                                        lemma_node_bst(lk, t0->left->left, gs->left);
                                    }
                                    let nr = Tree::Node { key: k, left: sr, right: r };
                                    let ghost gnr = Tree::Node {
                                        key: k,
                                        left: gs->right,
                                        right: t0->right,
                                    };
                                    proof {
                                        lemma_node_bst(k, gs->right, t0->right);
                                    }
                                    let out = Tree::Node {
                                        key: sk,
                                        left: Box::new(nl),
                                        right: Box::new(nr),
                                    };
                                    proof {
                                        lemma_node_bst(sk, Box::new(gnl), Box::new(gnr));
                                        assert(out.keys() =~= t0.keys());
                                        if t0.keys().contains(key) {
                                            assert(glr.keys().contains(key));
                                        }
                                    }
                                    out
                                },
                            }
                        } else {
                            // Zig: one rotation brings the key to the root.
                            let inner = Tree::Node { key: k, left: lr, right: r };
                            proof {
                                lemma_node_bst(k, t0->left->right, t0->right);
                            }
                            let out = Tree::Node {
                                key: lk,
                                left: ll,
                                right: Box::new(inner),
                            };
                            proof {
                                lemma_node_bst(lk, t0->left->left, Box::new(
                                    Tree::Node {
                                        key: k,
                                        left: t0->left->right,
                                        right: t0->right,
                                    },
                                ));
                                assert(out.keys() =~= t0.keys());
                            }
                            out
                        }
                    },
                }
            } else {
                match *r {
                    Tree::Leaf => {
                        let out = Tree::Node { key: k, left: l, right: r };
                        proof {
                            assert(out == t0);
                            assert(!t0.keys().contains(key));
                        }
                        out
                    },
                    Tree::Node { key: rk, left: rl, right: rr } => {
                        proof {
                            lemma_bst_node(gr);
                        }
                        let ghost grl = *gr->left;
                        let ghost grr = *gr->right;
                        proof {
                            assert forall|x: u64| #[trigger] grl.keys().contains(x) implies x
                                > k && x < rk by {
                                assert(gr.keys().contains(x));
                            }
                            assert forall|x: u64| #[trigger] grr.keys().contains(x) implies x
                                > k && x > rk by {
                                assert(gr.keys().contains(x));
                            }
                        }
                        if key > rk {
                            // Zig-zig, mirrored.
                            let s = splay(*rr, key);
                            let ghost gs = s;
                            match s {
                                Tree::Leaf => {
                                    let inner = Tree::Node { key: k, left: l, right: rl };
                                    proof {
                                        lemma_node_bst(k, t0->left, t0->right->left);
                                    }
                                    let out = Tree::Node {
                                        key: rk,
                                        left: Box::new(inner),
                                        right: Box::new(Tree::Leaf),
                                    };
                                    proof {
                                        lemma_node_bst(rk, Box::new(
                                            Tree::Node {
                                                key: k,
                                                left: t0->left,
                                                right: t0->right->left,
                                            },
                                        ), Box::new(Tree::Leaf));
                                        assert(out.keys() =~= t0.keys());
                                        assert(!t0.keys().contains(key));
                                    }
                                    out
                                },
                                Tree::Node { key: sk, left: sl, right: sr } => {
                                    proof {
                                        lemma_bst_node(gs);
                                        assert(gs.keys().contains(sk));
                                        assert(grr.keys().contains(sk));
                                        assert forall|x: u64| #[trigger]
                                            (*gs->left).keys().contains(x) implies x > rk && x
                                            > k by {
                                            assert(gs.keys().contains(x));
                                            assert(grr.keys().contains(x));
                                        }
                                        assert forall|x: u64| #[trigger]
                                            (*gs->right).keys().contains(x) implies x > rk
                                            && x > k by {
                                            assert(gs.keys().contains(x));
                                            assert(grr.keys().contains(x));
                                        }
                                    }
                                    let inner1 = Tree::Node { key: k, left: l, right: rl };
                                    let ghost ginner1 = Tree::Node {
                                        key: k,
                                        left: t0->left,
                                        right: t0->right->left,
                                    };
                                    proof {
                                        lemma_node_bst(k, t0->left, t0->right->left);
                                    }
                                    let inner2 = Tree::Node {
                                        key: rk,
                                        left: Box::new(inner1),
                                        right: sl,
                                    };
                                    let ghost ginner2 = Tree::Node {
                                        key: rk,
                                        left: Box::new(ginner1),
                                        right: gs->left,
                                    };
                                    proof {
                                        lemma_node_bst(rk, Box::new(ginner1), gs->left);
                                    }
                                    let out = Tree::Node {
                                        key: sk,
                                        left: Box::new(inner2),
                                        right: sr,
                                    };
                                    proof {
                                        lemma_node_bst(sk, Box::new(ginner2), gs->right);
                                        assert(out.keys() =~= t0.keys());
                                        if t0.keys().contains(key) {
                                            assert(grr.keys().contains(key));
                                        }
                                        if !t0.keys().contains(key) && sk > key {
                                            assert forall|x: u64| #[trigger]
                                                ginner2.keys().contains(x) implies x < key by {
                                                if (*gs->left).keys().contains(x) {
                                                    assert(!grr.keys().contains(key));
                                                }
                                            }
                                        }
                                    }
                                    out
                                },
                            }
                        } else if key < rk {
                            // Zig-zag, mirrored.
                            let s = splay(*rl, key);
                            let ghost gs = s;
                            match s {
                                Tree::Leaf => {
                                    let inner = Tree::Node {
                                        key: k,
                                        left: l,
                                        right: Box::new(Tree::Leaf),
                                    };
                                    proof {
                                        lemma_node_bst(k, t0->left, Box::new(Tree::Leaf));
                                    }
                                    let out = Tree::Node {
                                        key: rk,
                                        left: Box::new(inner),
                                        right: rr,
                                    };
                                    proof {
                                        lemma_node_bst(rk, Box::new(
                                            Tree::Node {
                                                key: k,
                                                left: t0->left,
                                                right: Box::new(Tree::Leaf),
                                            },
                                        ), t0->right->right);
                                        assert(out.keys() =~= t0.keys());
                                        assert(!t0.keys().contains(key));
                                    }
                                    out
                                },
                                Tree::Node { key: sk, left: sl, right: sr } => {
                                    proof {
                                        lemma_bst_node(gs);
                                        assert(gs.keys().contains(sk));
                                        assert(grl.keys().contains(sk));
                                        assert forall|x: u64| #[trigger]
                                            (*gs->left).keys().contains(x) implies x < rk && x
                                            > k by {
                                            assert(gs.keys().contains(x));
                                            assert(grl.keys().contains(x));
                                        }
                                        assert forall|x: u64| #[trigger]
                                            (*gs->right).keys().contains(x) implies x < rk
                                            && x > k by {
                                            assert(gs.keys().contains(x));
                                            assert(grl.keys().contains(x));
                                        }
                                    }
                                    let nl = Tree::Node { key: k, left: l, right: sl };
                                    let ghost gnl = Tree::Node {
                                        key: k,
                                        left: t0->left,
                                        right: gs->left,
                                    };
                                    proof {
                                        lemma_node_bst(k, t0->left, gs->left);
                                    }
                                    let nr = Tree::Node { key: rk, left: sr, right: rr };
                                    let ghost gnr = Tree::Node {
                                        key: rk,
                                        left: gs->right,
                                        right: t0->right->right,
                                    };
                                    proof {
                                        lemma_node_bst(rk, gs->right, t0->right->right);
                                    }
                                    let out = Tree::Node {
                                        key: sk,
                                        left: Box::new(nl),
                                        right: Box::new(nr),
                                    };
                                    proof {
                                        lemma_node_bst(sk, Box::new(gnl), Box::new(gnr));
                                        assert(out.keys() =~= t0.keys());
                                        if t0.keys().contains(key) {
                                            assert(grl.keys().contains(key));
                                        }
                                    }
                                    out
                                },
                            }
                        } else {
                            // Zig, mirrored.
                            let inner = Tree::Node { key: k, left: l, right: rl };
                            proof {
                                lemma_node_bst(k, t0->left, t0->right->left);
                            }
                            let out = Tree::Node {
                                key: rk,
                                left: Box::new(inner),
                                right: rr,
                            };
                            proof {
                                lemma_node_bst(rk, Box::new(
                                    Tree::Node {
                                        key: k,
                                        left: t0->left,
                                        right: t0->right->left,
                                    },
                                ), t0->right->right);
                                assert(out.keys() =~= t0.keys());
                            }
                            out
                        }
                    },
                }
            }
        },
    }
}

/// An intrusive-style ordered set with splay rebalancing: operating on a key
/// moves it to the root, so an immediate repeat finds it there.
pub struct SplayTree {
    /// The tree of keys.
    pub root: Tree,
}

impl SplayTree {
    /// The search-tree order holds from the root down.
    pub open spec fn wf(self) -> bool {
        self.root.is_bst()
    }

    /// The set of keys held.
    pub open spec fn keys(self) -> Set<u64> {
        self.root.keys()
    }

    /// An empty tree.
    pub fn new() -> (r: SplayTree)
        ensures
            r.wf(),
            r.keys() =~= Set::<u64>::empty(),
    {
        SplayTree { root: Tree::Leaf }
    }

    /// Is the tree empty?
    pub fn is_empty(&self) -> (r: bool)
        requires
            self.wf(),
        ensures
            r == (self.keys() =~= Set::<u64>::empty()),
    {
        match self.root {
            Tree::Leaf => {
                proof {
                    assert(self.keys() =~= Set::<u64>::empty());
                }
                true
            },
            Tree::Node { .. } => {
                proof {
                    lemma_node_keys(self.root);
                }
                false
            },
        }
    }

    /// Find a key, splaying it to the root: the key set is unchanged, and a
    /// found key stands at the root afterwards — so finding it again is one
    /// comparison.
    pub fn find(&mut self, key: u64) -> (r: bool)
        requires
            old(self).wf(),
        ensures
            final(self).wf(),
            final(self).keys() =~= old(self).keys(),
            r == old(self).keys().contains(key),
            r ==> final(self).root is Node && final(self).root->key == key,
    {
        let mut root = Tree::Leaf;
        core::mem::swap(&mut root, &mut self.root);
        let root = splay(root, key);
        let hit: bool = match &root {
            Tree::Leaf => false,
            Tree::Node { key: rk, .. } => *rk == key,
        };
        proof {
            if !hit && old(self).keys().contains(key) {
                assert(false);
            }
            if hit {
                lemma_node_keys(root);
            }
        }
        self.root = root;
        hit
    }

    /// Insert a key: splay it, then split the root around it. Returns
    /// whether the key was new; inserting a present key leaves the tree's
    /// keys unchanged, with that key splayed to the root.
    pub fn insert(&mut self, key: u64) -> (r: bool)
        requires
            old(self).wf(),
        ensures
            final(self).wf(),
            r == !old(self).keys().contains(key),
            final(self).keys() =~= old(self).keys().insert(key),
            final(self).root is Node && final(self).root->key == key,
    {
        let mut root = Tree::Leaf;
        core::mem::swap(&mut root, &mut self.root);
        let ghost had = root.keys().contains(key);
        let root = splay(root, key);
        let ghost g = root;
        match root {
            Tree::Leaf => {
                self.root = Tree::Node {
                    key,
                    left: Box::new(Tree::Leaf),
                    right: Box::new(Tree::Leaf),
                };
                proof {
                    lemma_node_bst(key, Box::new(Tree::Leaf), Box::new(Tree::Leaf));
                    assert(self.keys() =~= old(self).keys().insert(key));
                }
                true
            },
            Tree::Node { key: rk, left: rl, right: rr } => {
                proof {
                    lemma_bst_node(g);
                }
                if rk == key {
                    self.root = Tree::Node { key: rk, left: rl, right: rr };
                    proof {
                        assert(self.root == g);
                        lemma_node_keys(self.root);
                        assert(self.keys() =~= old(self).keys().insert(key));
                    }
                    false
                } else if rk > key {
                    // The old root and its right side hold only larger keys.
                    let inner = Tree::Node { key: rk, left: Box::new(Tree::Leaf), right: rr };
                    let ghost ginner = Tree::Node {
                        key: rk,
                        left: Box::new(Tree::Leaf),
                        right: g->right,
                    };
                    proof {
                        lemma_node_bst(rk, Box::new(Tree::Leaf), g->right);
                        assert(!had);
                        assert forall|x: u64| #[trigger] ginner.keys().contains(x) implies x
                            > key by {
                            if (*g->right).keys().contains(x) {
                                assert(g.keys().contains(x));
                            }
                        }
                    }
                    self.root = Tree::Node { key, left: rl, right: Box::new(inner) };
                    proof {
                        lemma_node_bst(key, g->left, Box::new(ginner));
                        assert(self.keys() =~= old(self).keys().insert(key));
                    }
                    true
                } else {
                    // The old root and its left side hold only smaller keys.
                    let inner = Tree::Node { key: rk, left: rl, right: Box::new(Tree::Leaf) };
                    let ghost ginner = Tree::Node {
                        key: rk,
                        left: g->left,
                        right: Box::new(Tree::Leaf),
                    };
                    proof {
                        lemma_node_bst(rk, g->left, Box::new(Tree::Leaf));
                        assert(!had);
                        assert forall|x: u64| #[trigger] ginner.keys().contains(x) implies x
                            < key by {
                            if (*g->left).keys().contains(x) {
                                assert(g.keys().contains(x));
                            }
                        }
                    }
                    self.root = Tree::Node { key, left: Box::new(inner), right: rr };
                    proof {
                        lemma_node_bst(key, Box::new(ginner), g->right);
                        assert(self.keys() =~= old(self).keys().insert(key));
                    }
                    true
                }
            },
        }
    }

    /// Remove a key: splay it to the root, then re-root over the union of
    /// its subtrees. Returns whether the key was present.
    pub fn remove(&mut self, key: u64) -> (r: bool)
        requires
            old(self).wf(),
        ensures
            final(self).wf(),
            r == old(self).keys().contains(key),
            final(self).keys() =~= old(self).keys().remove(key),
    {
        let mut root = Tree::Leaf;
        core::mem::swap(&mut root, &mut self.root);
        let root = splay(root, key);
        let ghost g = root;
        match root {
            Tree::Leaf => {
                self.root = Tree::Leaf;
                proof {
                    assert(self.keys() =~= old(self).keys().remove(key));
                }
                false
            },
            Tree::Node { key: rk, left: rl, right: rr } => {
                proof {
                    lemma_bst_node(g);
                }
                if rk != key {
                    proof {
                        if old(self).keys().contains(key) {
                            assert(false);
                        }
                    }
                    self.root = Tree::Node { key: rk, left: rl, right: rr };
                    proof {
                        assert(self.root == g);
                        assert(self.keys() =~= old(self).keys().remove(key));
                    }
                    false
                } else {
                    let ghost gl0 = *g->left;
                    let ghost gr0 = *g->right;
                    proof {
                        assert(!gl0.keys().contains(key));
                    }
                    match *rl {
                        Tree::Leaf => {
                            self.root = *rr;
                            proof {
                                assert(self.keys() =~= old(self).keys().remove(key));
                            }
                        },
                        Tree::Node { .. } => {
                            // Splay the removed key in the left subtree:
                            // every key there is smaller, so the largest
                            // rises to the root with nothing to its right,
                            // and the old right subtree hangs there.
                            let ml = splay(*rl, key);
                            let ghost gml = ml;
                            match ml {
                                Tree::Leaf => {
                                    proof {
                                        assert(false);
                                    }
                                    self.root = Tree::Leaf;
                                },
                                Tree::Node { key: mk, left: mll, right: mlr } => {
                                    proof {
                                        lemma_bst_node(gml);
                                        assert(gml.keys().contains(mk));
                                        assert(gl0.keys().contains(mk));
                                        assert(mk < key);
                                        if (*gml->right) is Node {
                                            let w = (*gml->right)->key;
                                            lemma_node_keys(*gml->right);
                                            assert((*gml->right).keys().contains(w));
                                            assert(w > key);
                                            assert(gml.keys().contains(w));
                                            assert(gl0.keys().contains(w));
                                            assert(false);
                                        }
                                    }
                                    self.root = Tree::Node { key: mk, left: mll, right: rr };
                                    proof {
                                        assert forall|x: u64| #[trigger]
                                            (*gml->left).keys().contains(x) implies x < mk by {}
                                        assert forall|x: u64| #[trigger]
                                            gr0.keys().contains(x) implies x > mk by {}
                                        lemma_node_bst(mk, gml->left, g->right);
                                        assert((*gml->right).keys() =~= Set::<u64>::empty());
                                        assert(gml.keys() =~= (*gml->left).keys().insert(mk));
                                        assert(self.keys() =~= old(self).keys().remove(key));
                                    }
                                },
                            }
                        },
                    }
                    true
                }
            },
        }
    }

    /// List the keys in strictly ascending order.
    pub fn walk(&self) -> (r: Vec<u64>)
        requires
            self.wf(),
        ensures
            r@.to_set() =~= self.keys(),
            forall|i: int, j: int| 0 <= i < j < r@.len() ==> r@[i] < r@[j],
    {
        let mut out: Vec<u64> = Vec::new();
        walk_tree(&self.root, &mut out);
        proof {
            lemma_inorder_keys(self.root);
            lemma_inorder_sorted(self.root);
            assert(out@ =~= self.root.inorder());
        }
        out
    }
}

/// In-order traversal, appending to `out`.
fn walk_tree(t: &Tree, out: &mut Vec<u64>)
    ensures
        final(out)@ =~= old(out)@.add(t.inorder()),
    decreases t,
{
    match t {
        Tree::Leaf => {},
        Tree::Node { key, left, right } => {
            walk_tree(left, out);
            out.push(*key);
            walk_tree(right, out);
        },
    }
}

/// The in-order sequence lists exactly the key set.
pub proof fn lemma_inorder_keys(t: Tree)
    ensures
        t.inorder().to_set() =~= t.keys(),
        t.inorder().len() == 0 <==> t is Leaf,
    decreases t,
{
    match t {
        Tree::Leaf => {},
        Tree::Node { key, left, right } => {
            lemma_inorder_keys(*left);
            lemma_inorder_keys(*right);
            let s = t.inorder();
            assert forall|k: u64| s.to_set().contains(k) implies t.keys().contains(k) by {
                let i = choose|i: int| 0 <= i < s.len() && s[i] == k;
                if i < left.inorder().len() {
                    assert(left.inorder()[i] == k);
                    assert(left.inorder().to_set().contains(k));
                } else if i == left.inorder().len() {
                } else {
                    assert(right.inorder()[i - left.inorder().len() - 1] == k);
                    assert(right.inorder().to_set().contains(k));
                }
            }
            assert forall|k: u64| t.keys().contains(k) implies s.to_set().contains(k) by {
                if left.keys().contains(k) {
                    let i = choose|i: int|
                        0 <= i < left.inorder().len() && left.inorder()[i] == k;
                    assert(s[i] == k);
                } else if right.keys().contains(k) {
                    let i = choose|i: int|
                        0 <= i < right.inorder().len() && right.inorder()[i] == k;
                    assert(s[left.inorder().len() + 1 + i] == k);
                } else {
                    assert(s[left.inorder().len() as int] == k);
                }
            }
        },
    }
}

/// In a search tree the in-order sequence is strictly ascending.
pub proof fn lemma_inorder_sorted(t: Tree)
    requires
        t.is_bst(),
    ensures
        forall|i: int, j: int|
            0 <= i < j < t.inorder().len() ==> t.inorder()[i] < t.inorder()[j],
    decreases t,
{
    match t {
        Tree::Leaf => {},
        Tree::Node { key, left, right } => {
            lemma_inorder_sorted(*left);
            lemma_inorder_sorted(*right);
            lemma_inorder_keys(*left);
            lemma_inorder_keys(*right);
            let s = t.inorder();
            let ln = left.inorder().len() as int;
            assert forall|i: int, j: int| 0 <= i < j < s.len() implies s[i] < s[j] by {
                if j < ln {
                    assert(left.inorder()[i] < left.inorder()[j]);
                } else if i > ln {
                    assert(right.inorder()[i - ln - 1] < right.inorder()[j - ln - 1]);
                } else {
                    if i < ln {
                        assert(left.inorder()[i] == s[i]);
                        assert(left.inorder().to_set().contains(s[i]));
                        assert(s[i] < key);
                    }
                    if j > ln {
                        assert(right.inorder()[j - ln - 1] == s[j]);
                        assert(right.inorder().to_set().contains(s[j]));
                        assert(s[j] > key);
                    }
                }
            }
        },
    }
}

} // verus!
