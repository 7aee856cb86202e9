//! A self-balancing binary search tree over `i64` values.
//!
//! Every node caches the height of its subtree; after each insertion or
//! removal the heights on the search path are recomputed and rotations keep
//! every node's balance factor (left height minus right height) within
//! `{-1, 0, 1}`. Duplicate insertions are rejected, so the tree represents a
//! set of distinct values, and an in-order walk lists them in strictly
//! ascending order.

use vstd::prelude::*;

verus! {

struct BSTNode {
    value: i64,
    left: Option<Box<BSTNode>>,
    right: Option<Box<BSTNode>>,
    height: usize,
}

pub struct BST {
    root: Option<Box<BSTNode>>,
    size: usize,
}

// ---------------------------------------------------------------------------
// The mathematical model: the set of values held, the node count, the height,
// and the in-order sequence of a subtree.
// ---------------------------------------------------------------------------

spec fn set_of(node_opt: Option<Box<BSTNode>>) -> Set<i64>
    decreases node_opt,
{
    match node_opt {
        None => Set::empty(),
        Some(n) => set_of(n.left).union(set_of(n.right)).insert(n.value),
    }
}

spec fn count(node_opt: Option<Box<BSTNode>>) -> nat
    decreases node_opt,
{
    match node_opt {
        None => 0,
        Some(n) => 1 + count(n.left) + count(n.right),
    }
}

spec fn spec_height(node_opt: Option<Box<BSTNode>>) -> nat
    decreases node_opt,
{
    match node_opt {
        None => 0,
        Some(n) => 1 + if spec_height(n.left) >= spec_height(n.right) {
            spec_height(n.left)
        } else {
            spec_height(n.right)
        },
    }
}

spec fn inorder(node_opt: Option<Box<BSTNode>>) -> Seq<i64>
    decreases node_opt,
{
    match node_opt {
        None => Seq::empty(),
        Some(n) => inorder(n.left) + seq![n.value] + inorder(n.right),
    }
}

/// Strictly ascending: every element is smaller than each later one.
pub open spec fn strict_sorted(s: Seq<i64>) -> bool {
    forall|i: int, j: int| 0 <= i < j < s.len() ==> s[i] < s[j]
}

// ---------------------------------------------------------------------------
// Well-formedness: search order, correct cached heights, and balance.
// ---------------------------------------------------------------------------

spec fn ordered(node_opt: Option<Box<BSTNode>>) -> bool
    decreases node_opt,
{
    match node_opt {
        None => true,
        Some(n) => {
            &&& (forall|e: i64| set_of(n.left).contains(e) ==> e < n.value)
            &&& (forall|e: i64| set_of(n.right).contains(e) ==> e > n.value)
            &&& ordered(n.left)
            &&& ordered(n.right)
        },
    }
}

spec fn heights_ok(node_opt: Option<Box<BSTNode>>) -> bool
    decreases node_opt,
{
    match node_opt {
        None => true,
        Some(n) => {
            &&& n.height == spec_height(node_opt)
            &&& heights_ok(n.left)
            &&& heights_ok(n.right)
        },
    }
}

spec fn balanced(node_opt: Option<Box<BSTNode>>) -> bool
    decreases node_opt,
{
    match node_opt {
        None => true,
        Some(n) => {
            &&& -1 <= spec_height(n.left) - spec_height(n.right) <= 1
            &&& balanced(n.left)
            &&& balanced(n.right)
        },
    }
}

spec fn wf(node_opt: Option<Box<BSTNode>>) -> bool {
    ordered(node_opt) && heights_ok(node_opt) && balanced(node_opt)
}

/// The balance factor: height of the left subtree minus height of the right.
spec fn spec_balance(node_opt: Option<Box<BSTNode>>) -> int {
    match node_opt {
        None => 0,
        Some(n) => spec_height(n.left) - spec_height(n.right),
    }
}

// ---------------------------------------------------------------------------
// Facts about the model.
// ---------------------------------------------------------------------------

proof fn lemma_height_le_count(node_opt: Option<Box<BSTNode>>)
    ensures
        spec_height(node_opt) <= count(node_opt),
    decreases node_opt,
{
    match node_opt {
        None => {},
        Some(n) => {
            lemma_height_le_count(n.left);
            lemma_height_le_count(n.right);
        },
    }
}

proof fn lemma_set_card(node_opt: Option<Box<BSTNode>>)
    requires
        ordered(node_opt),
    ensures
        set_of(node_opt).finite(),
        set_of(node_opt).len() == count(node_opt),
    decreases node_opt,
{
    match node_opt {
        None => {
            assert(set_of(node_opt) =~= Set::empty());
        },
        Some(n) => {
            lemma_set_card(n.left);
            lemma_set_card(n.right);
            let l = set_of(n.left);
            let r = set_of(n.right);
            assert(l.intersect(r) =~= Set::empty());
            vstd::set_lib::lemma_set_disjoint_lens(l, r);
            assert(!l.union(r).contains(n.value));
            assert(set_of(node_opt) =~= l.union(r).insert(n.value));
        },
    }
}

proof fn lemma_inorder_props(node_opt: Option<Box<BSTNode>>)
    requires
        ordered(node_opt),
    ensures
        inorder(node_opt).to_set() == set_of(node_opt),
        inorder(node_opt).len() == count(node_opt),
        strict_sorted(inorder(node_opt)),
    decreases node_opt,
{
    match node_opt {
        None => {
            assert(inorder(node_opt).to_set() =~= set_of(node_opt));
        },
        Some(n) => {
            lemma_inorder_props(n.left);
            lemma_inorder_props(n.right);
            let li = inorder(n.left);
            let ri = inorder(n.right);
            let s = inorder(node_opt);
            assert(s == li + seq![n.value] + ri);
            assert forall|x: i64| s.to_set().contains(x) <==> set_of(node_opt).contains(x) by {
                if s.to_set().contains(x) {
                    let i = choose|i: int| 0 <= i < s.len() && s[i] == x;
                    if i < li.len() {
                        assert(li[i] == x);
                        assert(li.to_set().contains(x));
                    } else if i == li.len() {
                        assert(x == n.value);
                    } else {
                        assert(ri[i - li.len() - 1] == x);
                        assert(ri.to_set().contains(x));
                    }
                }
                if set_of(node_opt).contains(x) {
                    if set_of(n.left).contains(x) {
                        let i = choose|i: int| 0 <= i < li.len() && li[i] == x;
                        assert(s[i] == x);
                    } else if set_of(n.right).contains(x) {
                        let i = choose|i: int| 0 <= i < ri.len() && ri[i] == x;
                        assert(s[li.len() + 1 + i] == x);
                    } else {
                        assert(s[li.len() as int] == x);
                    }
                }
            }
            assert(s.to_set() =~= set_of(node_opt));
            assert forall|i: int, j: int| 0 <= i < j < s.len() implies s[i] < s[j] by {
                if i < li.len() {
                    assert(li.to_set().contains(li[i]));
                    assert(set_of(n.left).contains(s[i]));
                }
                if j > li.len() {
                    assert(ri.to_set().contains(ri[j - li.len() - 1]));
                    assert(set_of(n.right).contains(s[j]));
                }
            }
        },
    }
}

// ---------------------------------------------------------------------------
// The executable tree.
// ---------------------------------------------------------------------------

impl View for BST {
    type V = Set<i64>;

    closed spec fn view(&self) -> Set<i64> {
        set_of(self.root)
    }
}

impl BST {
    /// Search order holds, cached heights are exact, every balance factor is
    /// within `{-1, 0, 1}`, and the stored size counts the values held.
    pub closed spec fn well_formed(&self) -> bool {
        wf(self.root) && self.size == count(self.root)
    }

    /// The in-order listing of the values held.
    pub closed spec fn inorder_spec(&self) -> Seq<i64> {
        inorder(self.root)
    }

    /// Every node's balance factor lies within `{-1, 0, 1}`.
    pub closed spec fn balanced_spec(&self) -> bool {
        balanced(self.root)
    }

    pub fn new() -> (t: Self)
        ensures
            t.well_formed(),
            t@ == Set::<i64>::empty(),
    {
        proof {
            assert(set_of(None) =~= Set::<i64>::empty());
        }
        BST { root: None, size: 0 }
    }

    pub fn contains(&self, value: &i64) -> (r: bool)
        requires
            self.well_formed(),
        ensures
            r == self@.contains(*value),
    {
        Self::search_node(&self.root, value)
    }

    fn search_node(node: &Option<Box<BSTNode>>, value: &i64) -> (r: bool)
        requires
            ordered(*node),
        ensures
            r == set_of(*node).contains(*value),
        decreases *node,
    {
        match node {
            None => false,
            Some(n) => {
                if *value == n.value {
                    true
                } else if *value < n.value {
                    proof {
                        assert(!set_of(n.right).contains(*value));
                    }
                    Self::search_node(&n.left, value)
                } else {
                    proof {
                        assert(!set_of(n.left).contains(*value));
                    }
                    Self::search_node(&n.right, value)
                }
            },
        }
    }

    pub fn insert(&mut self, value: i64)
        requires
            old(self).well_formed(),
            old(self)@.len() < usize::MAX,
        ensures
            final(self).well_formed(),
            final(self)@ == old(self)@.insert(value),
    {
        proof {
            lemma_set_card(self.root);
        }
        let inserted = Self::insert_node(&mut self.root, value);
        if inserted {
            self.size = self.size + 1;
        }
    }

    fn insert_node(node: &mut Option<Box<BSTNode>>, value: i64) -> (inserted: bool)
        requires
            wf(*old(node)),
            count(*old(node)) < usize::MAX,
        ensures
            wf(*final(node)),
            set_of(*final(node)) == set_of(*old(node)).insert(value),
            inserted == !set_of(*old(node)).contains(value),
            count(*final(node)) == count(*old(node)) + (if inserted {
                1int
            } else {
                0int
            }),
            spec_height(*old(node)) <= spec_height(*final(node)) <= spec_height(*old(node)) + 1,
            !inserted ==> *final(node) == *old(node),
        decreases *old(node),
    {
        match node.take() {
            None => {
                *node = Some(
                    Box::new(BSTNode { value, left: None, right: None, height: 1 }),
                );
                proof {
                    assert(set_of(*node) =~= set_of(None::<Box<BSTNode>>).insert(value));
                }
                true
            },
            Some(mut n) => {
                let ghost orig = n;
                proof {
                    assert(*old(node) == Some(orig));
                    assert(count(*old(node)) == 1 + count(orig.left) + count(orig.right));
                    assert(set_of(Some(orig)) == set_of(orig.left).union(set_of(orig.right)).insert(
                        orig.value,
                    ));
                }
                let inserted: bool;
                if value < n.value {
                    proof {
                        assert(!set_of(n.right).contains(value));
                    }
                    inserted = Self::insert_node(&mut n.left, value);
                    proof {
                        assert(set_of(n.left) == set_of(orig.left).insert(value));
                        assert forall|e: i64| set_of(n.left).contains(e) implies e < n.value by {
                            if e != value {
                                assert(set_of(orig.left).contains(e));
                            }
                        }
                    }
                } else if value > n.value {
                    proof {
                        assert(!set_of(n.left).contains(value));
                    }
                    inserted = Self::insert_node(&mut n.right, value);
                    proof {
                        assert(set_of(n.right) == set_of(orig.right).insert(value));
                        assert forall|e: i64| set_of(n.right).contains(e) implies e > n.value by {
                            if e != value {
                                assert(set_of(orig.right).contains(e));
                            }
                        }
                    }
                } else {
                    inserted = false;
                    proof {
                        assert(set_of(*old(node)).contains(value));
                    }
                }
                if inserted {
                    proof {
                        lemma_height_le_count(n.left);
                        lemma_height_le_count(n.right);
                        assert(count(n.left) + count(n.right) + 1 == count(*old(node)) + 1);
                    }
                    let hl = Self::get_height(&n.left);
                    let hr = Self::get_height(&n.right);
                    n.height = 1 + if hl >= hr {
                        hl
                    } else {
                        hr
                    };
                    proof {
                        assert(ordered(n.left) && ordered(n.right));
                        assert(balanced(n.left) && balanced(n.right));
                        assert(heights_ok(Some(n)));
                        assert(ordered(Some(n)));
                        assert(-2 <= spec_balance(Some(n)) <= 2);
                        assert(count(Some(n)) == count(*old(node)) + 1);
                        assert(set_of(Some(n)) =~= set_of(*old(node)).insert(value));
                        assert(
                            spec_height(*old(node)) <= spec_height(Some(n)) <= spec_height(
                                *old(node),
                            ) + 1
                        );
                    }
                    *node = Some(n);
                    Self::balance_node(node);
                } else {
                    *node = Some(n);
                }
                proof {
                    assert(set_of(*node) =~= set_of(*old(node)).insert(value));
                }
                inserted
            },
        }
    }

    pub fn remove(&mut self, value: &i64) -> (removed: bool)
        requires
            old(self).well_formed(),
        ensures
            final(self).well_formed(),
            final(self)@ == old(self)@.remove(*value),
            removed == old(self)@.contains(*value),
    {
        proof {
            lemma_set_card(self.root);
        }
        let removed = Self::remove_node(&mut self.root, value);
        if removed {
            self.size = self.size - 1;
        }
        removed
    }

    fn remove_node(node: &mut Option<Box<BSTNode>>, value: &i64) -> (removed: bool)
        requires
            wf(*old(node)),
            count(*old(node)) <= usize::MAX,
        ensures
            wf(*final(node)),
            set_of(*final(node)) == set_of(*old(node)).remove(*value),
            removed == set_of(*old(node)).contains(*value),
            count(*final(node)) == count(*old(node)) - (if removed {
                1int
            } else {
                0int
            }),
            spec_height(*old(node)) - 1 <= spec_height(*final(node)) <= spec_height(*old(node)),
            !removed ==> *final(node) == *old(node),
        decreases *old(node),
    {
        match node.take() {
            None => {
                proof {
                    assert(set_of(*final(node)) =~= set_of(*old(node)).remove(*value));
                }
                false
            },
            Some(mut n) => {
                let ghost orig = n;
                proof {
                    assert(*old(node) == Some(orig));
                    assert(count(*old(node)) == 1 + count(orig.left) + count(orig.right));
                    assert(set_of(Some(orig)) == set_of(orig.left).union(set_of(orig.right)).insert(
                        orig.value,
                    ));
                }
                if *value < n.value {
                    proof {
                        assert(!set_of(n.right).contains(*value));
                        assert(*value != n.value);
                    }
                    let removed = Self::remove_node(&mut n.left, value);
                    if removed {
                        proof {
                            lemma_height_le_count(n.left);
                            lemma_height_le_count(n.right);
                        }
                        let hl = Self::get_height(&n.left);
                        let hr = Self::get_height(&n.right);
                        n.height = 1 + if hl >= hr {
                            hl
                        } else {
                            hr
                        };
                        proof {
                            assert forall|e: i64| set_of(n.left).contains(e) implies e
                                < n.value by {
                                assert(set_of(orig.left).contains(e));
                            }
                            assert(heights_ok(Some(n)));
                            assert(ordered(Some(n)));
                            assert(balanced(n.left) && balanced(n.right));
                            assert(-2 <= spec_balance(Some(n)) <= 2);
                            assert(set_of(Some(n)) =~= set_of(*old(node)).remove(*value));
                            assert(count(Some(n)) == count(*old(node)) - 1);
                            assert(
                                spec_height(*old(node)) - 1 <= spec_height(Some(n)) <= spec_height(
                                    *old(node),
                                )
                            );
                        }
                        *node = Some(n);
                        Self::balance_node(node);
                    } else {
                        *node = Some(n);
                    }
                    proof {
                        assert(set_of(*node) =~= set_of(*old(node)).remove(*value));
                    }
                    removed
                } else if *value > n.value {
                    proof {
                        assert(!set_of(n.left).contains(*value));
                        assert(*value != n.value);
                    }
                    let removed = Self::remove_node(&mut n.right, value);
                    if removed {
                        proof {
                            lemma_height_le_count(n.left);
                            lemma_height_le_count(n.right);
                        }
                        let hl = Self::get_height(&n.left);
                        let hr = Self::get_height(&n.right);
                        n.height = 1 + if hl >= hr {
                            hl
                        } else {
                            hr
                        };
                        proof {
                            assert forall|e: i64| set_of(n.right).contains(e) implies e
                                > n.value by {
                                assert(set_of(orig.right).contains(e));
                            }
                            assert(heights_ok(Some(n)));
                            assert(ordered(Some(n)));
                            assert(balanced(n.left) && balanced(n.right));
                            assert(-2 <= spec_balance(Some(n)) <= 2);
                            assert(set_of(Some(n)) =~= set_of(*old(node)).remove(*value));
                            assert(count(Some(n)) == count(*old(node)) - 1);
                            assert(
                                spec_height(*old(node)) - 1 <= spec_height(Some(n)) <= spec_height(
                                    *old(node),
                                )
                            );
                        }
                        *node = Some(n);
                        Self::balance_node(node);
                    } else {
                        *node = Some(n);
                    }
                    proof {
                        assert(set_of(*node) =~= set_of(*old(node)).remove(*value));
                    }
                    removed
                } else {
                    proof {
                        assert(!set_of(n.left).contains(*value));
                        assert(!set_of(n.right).contains(*value));
                    }
                    match (n.left.take(), n.right.take()) {
                        (None, None) => {
                            *node = None;
                            proof {
                                assert(set_of(orig.left) =~= Set::<i64>::empty());
                                assert(set_of(orig.right) =~= Set::<i64>::empty());
                                assert(set_of(*node) =~= set_of(*old(node)).remove(*value));
                            }
                        },
                        (Some(left), None) => {
                            *node = Some(left);
                            proof {
                                assert(set_of(orig.right) =~= Set::<i64>::empty());
                                assert(spec_height(orig.right) == 0);
                                assert(set_of(*node) =~= set_of(*old(node)).remove(*value));
                            }
                        },
                        (None, Some(right)) => {
                            *node = Some(right);
                            proof {
                                assert(set_of(orig.left) =~= Set::<i64>::empty());
                                assert(spec_height(orig.left) == 0);
                                assert(set_of(*node) =~= set_of(*old(node)).remove(*value));
                            }
                        },
                        (Some(left), Some(right)) => {
                            proof {
                                assert(orig.left == Some(left) && orig.right == Some(right));
                                assert(wf(orig.right));
                                assert(count(orig.right) <= usize::MAX);
                            }
                            let (new_right, min_value) = Self::remove_min(right);
                            proof {
                                assert(set_of(orig.right).contains(min_value));
                                assert(min_value > orig.value);
                            }
                            n.value = min_value;
                            n.left = Some(left);
                            n.right = new_right;
                            proof {
                                lemma_height_le_count(n.left);
                                lemma_height_le_count(n.right);
                            }
                            let hl = Self::get_height(&n.left);
                            let hr = Self::get_height(&n.right);
                            n.height = 1 + if hl >= hr {
                                hl
                            } else {
                                hr
                            };
                            proof {
                                assert(set_of(n.right) == set_of(orig.right).remove(min_value));
                                assert forall|e: i64| set_of(n.left).contains(e) implies e
                                    < n.value by {
                                    assert(set_of(orig.left).contains(e));
                                    assert(e < orig.value);
                                }
                                assert forall|e: i64| set_of(n.right).contains(e) implies e
                                    > n.value by {
                                    assert(set_of(orig.right).contains(e));
                                    assert(e >= min_value && e != min_value);
                                }
                                assert(heights_ok(Some(n)));
                                assert(ordered(Some(n)));
                                assert(balanced(n.left) && balanced(n.right));
                                assert(-2 <= spec_balance(Some(n)) <= 2);
                                assert(set_of(Some(n)) =~= set_of(*old(node)).remove(*value));
                                assert(count(Some(n)) == count(*old(node)) - 1);
                                assert(
                                    spec_height(*old(node)) - 1 <= spec_height(Some(n))
                                        <= spec_height(*old(node))
                                );
                            }
                            *node = Some(n);
                            Self::balance_node(node);
                            proof {
                                assert(set_of(*node) =~= set_of(*old(node)).remove(*value));
                            }
                        },
                    }
                    true
                }
            },
        }
    }

    /// Detaches the smallest value of a nonempty subtree, rebalancing on the
    /// way back up, and returns the remaining subtree with that value.
    fn remove_min(n: Box<BSTNode>) -> (res: (Option<Box<BSTNode>>, i64))
        requires
            wf(Some(n)),
            count(Some(n)) <= usize::MAX,
        ensures
            wf(res.0),
            set_of(Some(n)).contains(res.1),
            forall|e: i64| set_of(Some(n)).contains(e) ==> e >= res.1,
            set_of(res.0) == set_of(Some(n)).remove(res.1),
            count(res.0) == count(Some(n)) - 1,
            spec_height(Some(n)) - 1 <= spec_height(res.0) <= spec_height(Some(n)),
        decreases n,
    {
        let ghost orig = n;
        proof {
            assert(Some(orig) == Some(n));
            assert(count(Some(orig)) == 1 + count(orig.left) + count(orig.right));
            assert(set_of(Some(orig)) == set_of(orig.left).union(set_of(orig.right)).insert(
                orig.value,
            ));
        }
        let mut n = n;
        match n.left.take() {
            None => {
                proof {
                    assert(orig.left is None);
                    assert(set_of(orig.left) =~= Set::<i64>::empty());
                    assert(count(orig.left) == 0);
                    assert(spec_height(orig.left) == 0);
                    assert(!set_of(orig.right).contains(orig.value));
                    assert(set_of(orig.right) =~= set_of(Some(orig)).remove(orig.value));
                    assert forall|e: i64| set_of(Some(orig)).contains(e) implies e >= orig.value by {
                        if set_of(orig.right).contains(e) {
                            assert(e > orig.value);
                        }
                    }
                }
                (n.right, n.value)
            },
            Some(left) => {
                proof {
                    assert(orig.left == Some(left));
                    assert(wf(orig.left));
                }
                let (new_left, min_value) = Self::remove_min(left);
                n.left = new_left;
                proof {
                    lemma_height_le_count(n.left);
                    lemma_height_le_count(n.right);
                    assert(set_of(n.left) == set_of(orig.left).remove(min_value));
                    assert(set_of(orig.left).contains(min_value));
                    assert(min_value < orig.value);
                    assert(!set_of(orig.right).contains(min_value));
                }
                let hl = Self::get_height(&n.left);
                let hr = Self::get_height(&n.right);
                n.height = 1 + if hl >= hr {
                    hl
                } else {
                    hr
                };
                proof {
                    assert forall|e: i64| set_of(n.left).contains(e) implies e < n.value by {
                        assert(set_of(orig.left).contains(e));
                    }
                    assert(ordered(n.left) && ordered(n.right));
                    assert(balanced(n.left) && balanced(n.right));
                    assert(heights_ok(Some(n)));
                    assert(ordered(Some(n)));
                    assert(-2 <= spec_balance(Some(n)) <= 2);
                    assert(count(Some(n)) == count(Some(orig)) - 1);
                    assert(set_of(Some(n)) =~= set_of(Some(orig)).remove(min_value));
                    assert(
                        spec_height(Some(orig)) - 1 <= spec_height(Some(n)) <= spec_height(
                            Some(orig),
                        )
                    );
                }
                let mut opt = Some(n);
                Self::balance_node(&mut opt);
                proof {
                    assert(set_of(opt) =~= set_of(Some(orig)).remove(min_value));
                    assert forall|e: i64| set_of(Some(orig)).contains(e) implies e >= min_value by {
                        if set_of(orig.left).contains(e) {
                        } else if set_of(orig.right).contains(e) {
                            assert(e > orig.value);
                        } else {
                            assert(e == orig.value);
                        }
                    }
                }
                (opt, min_value)
            },
        }
    }

    fn get_height(node: &Option<Box<BSTNode>>) -> (h: usize)
        requires
            heights_ok(*node),
        ensures
            h == spec_height(*node),
    {
        match node {
            None => 0,
            Some(n) => n.height,
        }
    }

    fn get_balance(node: &Option<Box<BSTNode>>) -> (b: i32)
        requires
            heights_ok(*node),
            -2 <= spec_balance(*node) <= 2,
        ensures
            b == spec_balance(*node),
    {
        match node {
            None => 0,
            Some(n) => {
                let hl = Self::get_height(&n.left);
                let hr = Self::get_height(&n.right);
                if hl >= hr {
                    (hl - hr) as i32
                } else {
                    -((hr - hl) as i32)
                }
            },
        }
    }

    /// Restores the balance of a node whose children are already balanced and
    /// whose own balance factor is off by at most two, using at most a double
    /// rotation. A node that is already within bounds is left untouched.
    fn balance_node(node: &mut Option<Box<BSTNode>>)
        requires
            *old(node) is Some,
            ordered(*old(node)),
            heights_ok(*old(node)),
            balanced(old(node).unwrap().left),
            balanced(old(node).unwrap().right),
            -2 <= spec_balance(*old(node)) <= 2,
            count(*old(node)) <= usize::MAX,
        ensures
            wf(*final(node)),
            set_of(*final(node)) == set_of(*old(node)),
            count(*final(node)) == count(*old(node)),
            spec_height(*old(node)) - 1 <= spec_height(*final(node)) <= spec_height(*old(node)),
            -1 <= spec_balance(*old(node)) <= 1 ==> *final(node) == *old(node),
    {
        let ghost g_n = old(node).unwrap();
        proof {
            assert(*old(node) == Some(g_n));
            assert(count(*old(node)) == 1 + count(g_n.left) + count(g_n.right));
        }
        let balance = Self::get_balance(node);
        if balance > 1 {
            let mut n = node.take().unwrap();
            proof {
                assert(spec_height(n.left) - spec_height(n.right) == 2);
                assert(n.left is Some);
                lemma_height_le_count(n.left);
                lemma_height_le_count(n.right);
            }
            let ghost g_l = n.left.unwrap();
            proof {
                assert(n.left == Some(g_l));
                assert(ordered(n.left) && heights_ok(n.left) && balanced(n.left));
                assert(
                    ordered(g_l.left) && heights_ok(g_l.left) && balanced(g_l.left) && ordered(
                        g_l.right,
                    ) && heights_ok(g_l.right) && balanced(g_l.right)
                );
                assert(count(g_n.left) == 1 + count(g_l.left) + count(g_l.right));
            }
            if Self::get_balance(&n.left) < 0 {
                proof {
                    assert(spec_height(g_l.right) > spec_height(g_l.left));
                    assert(g_l.right is Some);
                }
                Self::rotate_left(&mut n.left);
                proof {
                    let g_lr = g_l.right.unwrap();
                    assert(g_l.right == Some(g_lr));
                    assert(balanced(g_lr.left) && balanced(g_lr.right));
                    let f_l = n.left.unwrap();
                    assert(n.left == Some(f_l));
                    let f_ll = f_l.left.unwrap();
                    assert(f_l.left == Some(f_ll));
                    assert(heights_ok(n.left));
                    assert(heights_ok(Some(f_ll)) && heights_ok(f_l.right));
                    assert(spec_height(Some(f_ll)) == f_ll.height);
                    assert(spec_height(g_l.right) == spec_height(g_l.left) + 1);
                    assert(spec_height(Some(f_ll)) == spec_height(g_l.left) + 1);
                    assert(balanced(Some(f_ll)));
                    assert(spec_height(n.left) == spec_height(g_n.left));
                    assert forall|e: i64| set_of(n.left).contains(e) implies e < n.value by {
                        assert(set_of(g_n.left).contains(e));
                    }
                    assert(heights_ok(Some(n)));
                    assert(ordered(Some(n)));
                    assert(balanced(f_l.left) && balanced(f_l.right) && balanced(n.right));
                    assert(-1 <= spec_height(f_l.right) - spec_height(n.right) <= 1);
                    assert(set_of(n.left) == set_of(g_n.left));
                    assert(count(n.left) == count(g_n.left));
                }
            } else {
                proof {
                    let f_l = n.left.unwrap();
                    assert(spec_height(g_l.left) >= spec_height(g_l.right));
                    assert(spec_height(Some(g_l)) == spec_height(g_l.left) + 1);
                    assert(-1 <= spec_height(g_l.right) - spec_height(n.right) <= 1);
                }
            }
            let ghost m = n;
            let ghost ml = n.left.unwrap();
            proof {
                assert(m.left == Some(ml));
                assert(ordered(Some(m)) && heights_ok(Some(m)));
                assert(balanced(ml.left) && balanced(ml.right) && balanced(m.right));
                assert(-1 <= spec_height(ml.right) - spec_height(m.right) <= 1);
                assert(spec_height(Some(m)) == spec_height(Some(g_n)));
                assert(set_of(Some(m)) =~= set_of(Some(g_n)));
                assert(count(Some(m)) == count(Some(g_n)));
            }
            *node = Some(n);
            Self::rotate_right(node);
            proof {
                let f_root = (*node).unwrap();
                assert(*node == Some(f_root));
                let f_r = f_root.right.unwrap();
                assert(f_root.right == Some(f_r));
                assert(heights_ok(*node));
                assert(heights_ok(f_root.left) && heights_ok(f_root.right));
                assert(heights_ok(Some(f_r)));
                assert(spec_height(Some(f_r)) == f_r.height);
                assert(spec_height(Some(f_root)) == f_root.height);
                assert(f_root.left == ml.left && f_r.left == ml.right && f_r.right == m.right);
                assert(balanced(f_root.left) && balanced(f_r.left) && balanced(f_r.right));
                assert(spec_height(Some(f_r)) == 1 + if spec_height(ml.right) >= spec_height(
                    m.right,
                ) {
                    spec_height(ml.right)
                } else {
                    spec_height(m.right)
                });
                assert(balanced(Some(f_r)));
                assert(balanced(Some(f_root)));
                assert(wf(*node));
                assert(set_of(*node) == set_of(Some(m)));
                assert(count(*node) == count(Some(m)));
            }
        } else if balance < -1 {
            let mut n = node.take().unwrap();
            proof {
                assert(spec_height(n.right) - spec_height(n.left) == 2);
                assert(n.right is Some);
                lemma_height_le_count(n.left);
                lemma_height_le_count(n.right);
            }
            let ghost g_r = n.right.unwrap();
            proof {
                assert(n.right == Some(g_r));
                assert(ordered(n.right) && heights_ok(n.right) && balanced(n.right));
                assert(
                    ordered(g_r.left) && heights_ok(g_r.left) && balanced(g_r.left) && ordered(
                        g_r.right,
                    ) && heights_ok(g_r.right) && balanced(g_r.right)
                );
                assert(count(g_n.right) == 1 + count(g_r.left) + count(g_r.right));
            }
            if Self::get_balance(&n.right) > 0 {
                proof {
                    assert(spec_height(g_r.left) > spec_height(g_r.right));
                    assert(g_r.left is Some);
                }
                Self::rotate_right(&mut n.right);
                proof {
                    let g_rl = g_r.left.unwrap();
                    assert(g_r.left == Some(g_rl));
                    assert(balanced(g_rl.left) && balanced(g_rl.right));
                    let f_r = n.right.unwrap();
                    assert(n.right == Some(f_r));
                    let f_rr = f_r.right.unwrap();
                    assert(f_r.right == Some(f_rr));
                    assert(heights_ok(n.right));
                    assert(heights_ok(Some(f_rr)) && heights_ok(f_r.left));
                    assert(spec_height(Some(f_rr)) == f_rr.height);
                    assert(spec_height(g_r.left) == spec_height(g_r.right) + 1);
                    assert(spec_height(Some(f_rr)) == spec_height(g_r.right) + 1);
                    assert(balanced(Some(f_rr)));
                    assert(spec_height(n.right) == spec_height(g_n.right));
                    assert forall|e: i64| set_of(n.right).contains(e) implies e > n.value by {
                        assert(set_of(g_n.right).contains(e));
                    }
                    assert(heights_ok(Some(n)));
                    assert(ordered(Some(n)));
                    assert(balanced(f_r.right) && balanced(f_r.left) && balanced(n.left));
                    assert(-1 <= spec_height(f_r.left) - spec_height(n.left) <= 1);
                    assert(set_of(n.right) == set_of(g_n.right));
                    assert(count(n.right) == count(g_n.right));
                }
            } else {
                proof {
                    assert(spec_height(g_r.right) >= spec_height(g_r.left));
                    assert(spec_height(Some(g_r)) == spec_height(g_r.right) + 1);
                    assert(-1 <= spec_height(g_r.left) - spec_height(n.left) <= 1);
                }
            }
            let ghost m = n;
            let ghost mr = n.right.unwrap();
            proof {
                assert(m.right == Some(mr));
                assert(ordered(Some(m)) && heights_ok(Some(m)));
                assert(balanced(mr.left) && balanced(mr.right) && balanced(m.left));
                assert(-1 <= spec_height(mr.left) - spec_height(m.left) <= 1);
                assert(spec_height(Some(m)) == spec_height(Some(g_n)));
                assert(set_of(Some(m)) =~= set_of(Some(g_n)));
                assert(count(Some(m)) == count(Some(g_n)));
            }
            *node = Some(n);
            Self::rotate_left(node);
            proof {
                let f_root = (*node).unwrap();
                assert(*node == Some(f_root));
                let f_l = f_root.left.unwrap();
                assert(f_root.left == Some(f_l));
                assert(heights_ok(*node));
                assert(heights_ok(f_root.left) && heights_ok(f_root.right));
                assert(heights_ok(Some(f_l)));
                assert(spec_height(Some(f_l)) == f_l.height);
                assert(spec_height(Some(f_root)) == f_root.height);
                assert(f_root.right == mr.right && f_l.right == mr.left && f_l.left == m.left);
                assert(balanced(f_root.right) && balanced(f_l.right) && balanced(f_l.left));
                assert(spec_height(Some(f_l)) == 1 + if spec_height(m.left) >= spec_height(
                    mr.left,
                ) {
                    spec_height(m.left)
                } else {
                    spec_height(mr.left)
                });
                assert(balanced(Some(f_l)));
                assert(balanced(Some(f_root)));
                assert(wf(*node));
                assert(set_of(*node) == set_of(Some(m)));
                assert(count(*node) == count(Some(m)));
            }
        } else {
            proof {
                assert(balanced(Some(g_n)));
                assert(wf(*node));
            }
        }
    }

    /// Rotates right: the left child becomes the root of the subtree, and the
    /// old root takes the left child's right subtree as its new left subtree.
    /// The heights of the two re-parented nodes are recomputed.
    fn rotate_right(node: &mut Option<Box<BSTNode>>)
        requires
            *old(node) is Some,
            old(node).unwrap().left is Some,
            ordered(*old(node)),
            heights_ok(old(node).unwrap().left),
            heights_ok(old(node).unwrap().right),
            count(*old(node)) <= usize::MAX,
        ensures
            *final(node) is Some,
            ordered(*final(node)),
            heights_ok(*final(node)),
            set_of(*final(node)) == set_of(*old(node)),
            count(*final(node)) == count(*old(node)),
            final(node).unwrap().value == old(node).unwrap().left.unwrap().value,
            final(node).unwrap().left == old(node).unwrap().left.unwrap().left,
            final(node).unwrap().right is Some,
            final(node).unwrap().right.unwrap().value == old(node).unwrap().value,
            final(node).unwrap().right.unwrap().left == old(node).unwrap().left.unwrap().right,
            final(node).unwrap().right.unwrap().right == old(node).unwrap().right,
    {
        let ghost g_n = old(node).unwrap();
        let ghost g_l = g_n.left.unwrap();
        proof {
            assert(*old(node) == Some(g_n));
            assert(g_n.left == Some(g_l));
            assert(count(*old(node)) == 1 + count(g_n.left) + count(g_n.right));
            assert(count(g_n.left) == 1 + count(g_l.left) + count(g_l.right));
        }
        let mut n = node.take().unwrap();
        let mut left = n.left.take().unwrap();
        n.left = left.right.take();
        proof {
            lemma_height_le_count(n.left);
            lemma_height_le_count(n.right);
        }
        let hl = Self::get_height(&n.left);
        let hr = Self::get_height(&n.right);
        n.height = 1 + if hl >= hr {
            hl
        } else {
            hr
        };
        proof {
            lemma_height_le_count(left.left);
            assert(spec_height(Some(n)) == n.height);
        }
        let hll = Self::get_height(&left.left);
        let hn = n.height;
        left.right = Some(n);
        left.height = 1 + if hll >= hn {
            hll
        } else {
            hn
        };
        *node = Some(left);
        proof {
            let f_root = (*node).unwrap();
            let f_r = f_root.right.unwrap();
            assert(*node == Some(f_root));
            assert(f_root.right == Some(f_r));
            assert(f_r.left == g_l.right && f_r.right == g_n.right && f_r.value == g_n.value);
            assert(f_root.left == g_l.left && f_root.value == g_l.value);
            assert(ordered(Some(g_n)));
            assert(ordered(Some(g_l)));
            assert(ordered(g_l.left) && ordered(g_l.right) && ordered(g_n.right));
            assert(heights_ok(Some(g_l)));
            assert(heights_ok(g_l.left) && heights_ok(g_l.right));
            assert(set_of(Some(g_n)) == set_of(g_n.left).union(set_of(g_n.right)).insert(
                g_n.value,
            ));
            assert(set_of(Some(g_l)) == set_of(g_l.left).union(set_of(g_l.right)).insert(
                g_l.value,
            ));
            assert(set_of(g_n.left).contains(g_l.value));
            assert forall|e: i64| set_of(f_r.left).contains(e) implies e < f_r.value by {
                assert(set_of(g_l.right).contains(e));
                assert(set_of(g_n.left).contains(e));
            }
            assert forall|e: i64| set_of(f_r.right).contains(e) implies e > f_r.value by {
                assert(set_of(g_n.right).contains(e));
            }
            assert(ordered(Some(f_r)));
            assert forall|e: i64| set_of(f_root.left).contains(e) implies e < f_root.value by {
                assert(set_of(g_l.left).contains(e));
            }
            assert forall|e: i64| set_of(f_root.right).contains(e) implies e > f_root.value by {
                assert(set_of(Some(f_r)) == set_of(f_r.left).union(set_of(f_r.right)).insert(
                    f_r.value,
                ));
                if set_of(g_l.right).contains(e) {
                } else if set_of(g_n.right).contains(e) {
                    assert(set_of(g_n.left).contains(g_l.value));
                    assert(e > g_n.value);
                } else {
                    assert(e == g_n.value);
                }
            }
            assert(ordered(Some(f_root)));
            assert(spec_height(Some(f_r)) == f_r.height);
            assert(heights_ok(Some(f_r)));
            assert(spec_height(Some(f_root)) == f_root.height);
            assert(heights_ok(Some(f_root)));
            assert(set_of(Some(f_r)) == set_of(f_r.left).union(set_of(f_r.right)).insert(
                f_r.value,
            ));
            assert(set_of(Some(f_root)) == set_of(f_root.left).union(set_of(Some(f_r))).insert(
                f_root.value,
            ));
            assert(set_of(*node) =~= set_of(*old(node)));
            assert(count(Some(f_r)) == 1 + count(g_l.right) + count(g_n.right));
            assert(count(Some(f_root)) == 1 + count(g_l.left) + count(Some(f_r)));
            assert(count(*node) == count(*old(node)));
        }
    }

    /// Rotates left: the mirror image of `rotate_right`.
    fn rotate_left(node: &mut Option<Box<BSTNode>>)
        requires
            *old(node) is Some,
            old(node).unwrap().right is Some,
            ordered(*old(node)),
            heights_ok(old(node).unwrap().left),
            heights_ok(old(node).unwrap().right),
            count(*old(node)) <= usize::MAX,
        ensures
            *final(node) is Some,
            ordered(*final(node)),
            heights_ok(*final(node)),
            set_of(*final(node)) == set_of(*old(node)),
            count(*final(node)) == count(*old(node)),
            final(node).unwrap().value == old(node).unwrap().right.unwrap().value,
            final(node).unwrap().right == old(node).unwrap().right.unwrap().right,
            final(node).unwrap().left is Some,
            final(node).unwrap().left.unwrap().value == old(node).unwrap().value,
            final(node).unwrap().left.unwrap().right == old(node).unwrap().right.unwrap().left,
            final(node).unwrap().left.unwrap().left == old(node).unwrap().left,
    {
        let ghost g_n = old(node).unwrap();
        let ghost g_r = g_n.right.unwrap();
        proof {
            assert(*old(node) == Some(g_n));
            assert(g_n.right == Some(g_r));
            assert(count(*old(node)) == 1 + count(g_n.left) + count(g_n.right));
            assert(count(g_n.right) == 1 + count(g_r.left) + count(g_r.right));
        }
        let mut n = node.take().unwrap();
        let mut right = n.right.take().unwrap();
        n.right = right.left.take();
        proof {
            lemma_height_le_count(n.left);
            lemma_height_le_count(n.right);
        }
        let hl = Self::get_height(&n.left);
        let hr = Self::get_height(&n.right);
        n.height = 1 + if hl >= hr {
            hl
        } else {
            hr
        };
        proof {
            lemma_height_le_count(right.right);
            assert(spec_height(Some(n)) == n.height);
        }
        let hrr = Self::get_height(&right.right);
        let hn = n.height;
        right.left = Some(n);
        right.height = 1 + if hn >= hrr {
            hn
        } else {
            hrr
        };
        *node = Some(right);
        proof {
            let f_root = (*node).unwrap();
            let f_l = f_root.left.unwrap();
            assert(*node == Some(f_root));
            assert(f_root.left == Some(f_l));
            assert(f_l.right == g_r.left && f_l.left == g_n.left && f_l.value == g_n.value);
            assert(f_root.right == g_r.right && f_root.value == g_r.value);
            assert(ordered(Some(g_n)));
            assert(ordered(Some(g_r)));
            assert(ordered(g_r.left) && ordered(g_r.right) && ordered(g_n.left));
            assert(heights_ok(Some(g_r)));
            assert(heights_ok(g_r.left) && heights_ok(g_r.right));
            assert(set_of(Some(g_n)) == set_of(g_n.left).union(set_of(g_n.right)).insert(
                g_n.value,
            ));
            assert(set_of(Some(g_r)) == set_of(g_r.left).union(set_of(g_r.right)).insert(
                g_r.value,
            ));
            assert(set_of(g_n.right).contains(g_r.value));
            assert forall|e: i64| set_of(f_l.right).contains(e) implies e > f_l.value by {
                assert(set_of(g_r.left).contains(e));
                assert(set_of(g_n.right).contains(e));
            }
            assert forall|e: i64| set_of(f_l.left).contains(e) implies e < f_l.value by {
                assert(set_of(g_n.left).contains(e));
            }
            assert(ordered(Some(f_l)));
            assert forall|e: i64| set_of(f_root.right).contains(e) implies e > f_root.value by {
                assert(set_of(g_r.right).contains(e));
            }
            assert forall|e: i64| set_of(f_root.left).contains(e) implies e < f_root.value by {
                assert(set_of(Some(f_l)) == set_of(f_l.left).union(set_of(f_l.right)).insert(
                    f_l.value,
                ));
                if set_of(g_r.left).contains(e) {
                } else if set_of(g_n.left).contains(e) {
                    assert(set_of(g_n.right).contains(g_r.value));
                    assert(e < g_n.value);
                } else {
                    assert(e == g_n.value);
                }
            }
            assert(ordered(Some(f_root)));
            assert(spec_height(Some(f_l)) == f_l.height);
            assert(heights_ok(Some(f_l)));
            assert(spec_height(Some(f_root)) == f_root.height);
            assert(heights_ok(Some(f_root)));
            assert(set_of(Some(f_l)) == set_of(f_l.left).union(set_of(f_l.right)).insert(
                f_l.value,
            ));
            assert(set_of(Some(f_root)) == set_of(Some(f_l)).union(set_of(f_root.right)).insert(
                f_root.value,
            ));
            assert(set_of(*node) =~= set_of(*old(node)));
            assert(count(Some(f_l)) == 1 + count(g_n.left) + count(g_r.left));
            assert(count(Some(f_root)) == 1 + count(Some(f_l)) + count(g_r.right));
            assert(count(*node) == count(*old(node)));
        }
    }

    pub fn inorder_traversal(&self) -> (r: Vec<i64>)
        requires
            self.well_formed(),
        ensures
            r@ == self.inorder_spec(),
            strict_sorted(r@),
            r@.to_set() == self@,
            r@.len() == self@.len(),
    {
        let mut result: Vec<i64> = Vec::new();
        Self::inorder_recursive(&self.root, &mut result);
        proof {
            lemma_inorder_props(self.root);
            lemma_set_card(self.root);
            assert(result@ =~= inorder(self.root));
        }
        result
    }

    fn inorder_recursive(node: &Option<Box<BSTNode>>, result: &mut Vec<i64>)
        ensures
            final(result)@ == old(result)@ + inorder(*node),
        decreases *node,
    {
        match node {
            None => {
                proof {
                    assert(result@ =~= old(result)@ + inorder(*node));
                }
            },
            Some(n) => {
                Self::inorder_recursive(&n.left, result);
                result.push(n.value);
                Self::inorder_recursive(&n.right, result);
                proof {
                    assert(result@ =~= old(result)@ + inorder(*node));
                }
            },
        }
    }

    pub fn size(&self) -> (r: usize)
        requires
            self.well_formed(),
        ensures
            r == self@.len(),
    {
        proof {
            lemma_set_card(self.root);
        }
        self.size
    }

    pub fn is_empty(&self) -> (r: bool)
        requires
            self.well_formed(),
        ensures
            r == (self@.len() == 0),
    {
        proof {
            lemma_set_card(self.root);
        }
        self.size == 0
    }
}

/// After any interleaving of insertions and removals, a well-formed tree
/// yields a strictly ascending in-order traversal, and every node's balance
/// factor lies within `{-1, 0, 1}`. The traversal lists exactly the values
/// held, one occurrence each.
pub proof fn lemma_traversal_sorted_and_balanced(t: &BST)
    requires
        t.well_formed(),
    ensures
        strict_sorted(t.inorder_spec()),
        t.balanced_spec(),
        t.inorder_spec().to_set() == t@,
        t.inorder_spec().len() == t@.len(),
{
    lemma_inorder_props(t.root);
    lemma_set_card(t.root);
}

} // verus!
