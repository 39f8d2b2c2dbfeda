use vstd::prelude::*;

use crate::aggregate::{agg_sum, lemma_agg_sum_concat, lemma_agg_sum_singleton, Aggregate};
use rand::Rng;

verus! {

/// One node of the aggregate order tree: a value, a randomly drawn
/// priority, exclusively owned children, the subtree size, and a cached
/// subtree aggregate guarded by a dirty flag.
pub struct Node<V: Aggregate> {
    value: V,
    priority: u64,
    left: Option<Box<Node<V>>>,
    right: Option<Box<Node<V>>>,
    tree_sum: V,
    size: usize,
    lazy: bool,
}

/// A positionally indexed sequence with range-aggregate queries, kept
/// balanced (in expectation) by random priorities alone, never by value
/// comparison.
pub struct TreapList<V: Aggregate> {
    root: Option<Box<Node<V>>>,
}

/// The in-order sequence of value views held below an optional root.
pub closed spec fn opt_seq<V: Aggregate>(o: Option<Box<Node<V>>>) -> Seq<<V as View>::V>
    decreases o,
{
    match o {
        Option::None => Seq::empty(),
        Option::Some(n) => n.seqv(),
    }
}

/// Well-formedness of an optional subtree.
pub closed spec fn opt_wf<V: Aggregate>(o: Option<Box<Node<V>>>) -> bool
    decreases o,
{
    match o {
        Option::None => true,
        Option::Some(n) => n.wf(),
    }
}

/// Every priority in the optional subtree is at most `p`.
pub closed spec fn prio_le<V: Aggregate>(o: Option<Box<Node<V>>>, p: u64) -> bool
    decreases o,
{
    match o {
        Option::None => true,
        Option::Some(n) => n.priority <= p && prio_le(n.left, p) && prio_le(n.right, p),
    }
}

/// The priority at the optional root; an empty subtree answers zero.
pub closed spec fn root_prio<V: Aggregate>(o: Option<Box<Node<V>>>) -> u64 {
    match o {
        Option::None => 0,
        Option::Some(n) => n.priority,
    }
}

/// Both subtrees directly under the optional root are bounded by `p`.
pub closed spec fn root_children_le<V: Aggregate>(o: Option<Box<Node<V>>>, p: u64) -> bool {
    match o {
        Option::None => true,
        Option::Some(n) => prio_le(n.left, p) && prio_le(n.right, p),
    }
}

/// A bound on a subtree's priorities loosens upward.
pub proof fn lemma_prio_le_mono<V: Aggregate>(o: Option<Box<Node<V>>>, p: u64, q: u64)
    requires
        prio_le(o, p),
        p <= q,
    ensures
        prio_le(o, q),
    decreases o,
{
    match o {
        Option::None => {},
        Option::Some(n) => {
            lemma_prio_le_mono(n.left, p, q);
            lemma_prio_le_mono(n.right, p, q);
        },
    }
}

impl<V: Aggregate> Node<V> {
    /// The in-order sequence of value views of this subtree.
    pub closed spec fn seqv(self) -> Seq<<V as View>::V>
        decreases self,
    {
        opt_seq(self.left) + seq![self.value@] + opt_seq(self.right)
    }

    /// Size matches the sequence, a clean cache holds the subtree fold,
    /// and the priorities stand in heap order: no priority below a node
    /// exceeds the node's own.
    pub closed spec fn wf(self) -> bool
        decreases self,
    {
        &&& opt_wf(self.left)
        &&& opt_wf(self.right)
        &&& prio_le(self.left, self.priority)
        &&& prio_le(self.right, self.priority)
        &&& self.size == self.seqv().len()
        &&& (!self.lazy ==> self.tree_sum@ == agg_sum::<V>(self.seqv()))
    }

    /// The number of values below the left child.
    fn left_size(&self) -> (r: usize)
        requires
            self.wf(),
        ensures
            r == opt_seq(self.left).len(),
            r < self.size,
    {
        proof {
            assert(self.size == self.seqv().len());
            assert(self.seqv().len() == opt_seq(self.left).len() + 1 + opt_seq(self.right).len());
        }
        match &self.left {
            Option::None => {
                proof {
                    assert(opt_seq(self.left).len() == 0);
                }
                0
            },
            Option::Some(n) => {
                proof {
                    assert(opt_seq(self.left) == n.seqv());
                    assert(n.wf());
                }
                n.size
            },
        }
    }

    /// The fold of this subtree's sequence, recomputed on read when the
    /// cache is dirty.
    fn get_tree_sum(&self) -> (r: V)
        requires
            self.wf(),
        ensures
            r@ == agg_sum::<V>(self.seqv()),
        decreases self,
    {
        if !self.lazy {
            self.tree_sum.copy_value()
        } else {
            let ls: V = match &self.left {
                Option::None => V::identity(),
                Option::Some(n) => n.get_tree_sum(),
            };
            let rs: V = match &self.right {
                Option::None => V::identity(),
                Option::Some(n) => n.get_tree_sum(),
            };
            let front = ls.combine(&self.value);
            let r = front.combine(&rs);
            proof {
                lemma_split_sum::<V>(*self);
                V::lemma_m_assoc(
                    agg_sum::<V>(opt_seq(self.left)),
                    self.value@,
                    agg_sum::<V>(opt_seq(self.right)),
                );
            }
            r
        }
    }

    /// Recomputes this node's size from its children and marks the cached
    /// aggregate dirty; value, priority and children stay as they are.
    fn update_all(&mut self)
        requires
            opt_wf(old(self).left),
            opt_wf(old(self).right),
            prio_le(old(self).left, old(self).priority),
            prio_le(old(self).right, old(self).priority),
            opt_seq(old(self).left).len() + 1 + opt_seq(old(self).right).len() <= usize::MAX,
        ensures
            final(self).value == old(self).value,
            final(self).priority == old(self).priority,
            final(self).left == old(self).left,
            final(self).right == old(self).right,
            final(self).lazy,
            final(self).wf(),
            final(self).seqv() == old(self).seqv(),
    {
        let ls: usize = match &self.left {
            Option::None => 0,
            Option::Some(n) => n.size,
        };
        let rs: usize = match &self.right {
            Option::None => 0,
            Option::Some(n) => n.size,
        };
        self.size = 1 + ls + rs;
        self.lazy = true;
    }
}

/// The fold of a node's sequence splits around its own value.
proof fn lemma_split_sum<V: Aggregate>(n: Node<V>)
    ensures
        agg_sum::<V>(n.seqv()) == V::m_op(
            agg_sum::<V>(opt_seq(n.left)),
            V::m_op(n.value@, agg_sum::<V>(opt_seq(n.right))),
        ),
{
    let l = opt_seq(n.left);
    let r = opt_seq(n.right);
    let m = seq![n.value@];
    lemma_agg_sum_concat::<V>(l, m + r);
    assert(l + (m + r) =~= n.seqv());
    lemma_agg_sum_concat::<V>(m, r);
    lemma_agg_sum_singleton::<V>(n.value@);
}

/// Relies on rand::rng / Rng::random: draws one independent random
/// priority; nothing is assumed of the value.
#[verifier::external_body]
fn random_priority() -> u64 {
    rand::rng().random()
}

impl<V: Aggregate> Node<V> {
    /// The view of this node's own value.
    pub closed spec fn value_view(self) -> <V as View>::V {
        self.value@
    }

    /// This node's own random priority.
    pub closed spec fn prio(self) -> u64 {
        self.priority
    }

    /// A freshly made node: no children yet.
    pub closed spec fn fresh(self) -> bool {
        self.left is None && self.right is None
    }

    /// Borrows this node's value.
    pub fn value_ref(&self) -> (r: &V)
        ensures
            r@ == self.value_view(),
    {
        &self.value
    }

    /// Splices a fresh node in as the k-th value of the subtree, descending
    /// by rank to a leaf position and rotating upward where the new
    /// priority demands it, so that heap order survives: the freshly
    /// inserted node ends up above exactly the nodes its priority beats.
    #[verifier::rlimit(100)]
    pub fn insert_after_k_nodes(node: &mut Option<Box<Node<V>>>, nn: Box<Node<V>>, k: usize)
        requires
            opt_wf(*old(node)),
            nn.wf(),
            nn.fresh(),
            k <= opt_seq(*old(node)).len(),
            opt_seq(*old(node)).len() < usize::MAX,
        ensures
            opt_wf(*final(node)),
            opt_seq(*final(node)) == opt_seq(*old(node)).insert(k as int, nn.value_view()),
            *final(node) is Some,
            root_prio(*final(node)) >= nn.prio(),
            forall|p: u64|
                prio_le(*old(node), p) && nn.prio() <= p ==> prio_le(*final(node), p),
            forall|p: u64|
                prio_le(*old(node), p) && p < nn.prio() ==> root_prio(*final(node)) == nn.prio()
                    && root_children_le(*final(node), p),
        decreases *old(node),
    {
        let ghost old_seq = opt_seq(*old(node));
        let ghost nv = nn.value_view();
        let ghost npr = nn.priority;
        match node.take() {
            Option::None => {
                *node = Some(nn);
                proof {
                    assert(opt_seq(*node) =~= old_seq.insert(k as int, nv));
                }
            },
            Option::Some(mut cur) => {
                let ghost l0 = opt_seq(cur.left);
                let ghost r0 = opt_seq(cur.right);
                let ghost l0opt = cur.left;
                let ghost r0opt = cur.right;
                let ghost cv = cur.value_view();
                let ghost cp = cur.priority;
                proof {
                    assert(old_seq == l0 + seq![cv] + r0);
                    assert(prio_le(l0opt, cp));
                    assert(prio_le(r0opt, cp));
                }
                let ls = cur.left_size();
                if k <= ls {
                    Self::insert_after_k_nodes(&mut cur.left, nn, k);
                    let ghost l1 = opt_seq(cur.left);
                    let ghost l1opt = cur.left;
                    proof {
                        assert(l1 == l0.insert(k as int, nv));
                    }
                    let rotate = match &cur.left {
                        Option::Some(l) => l.priority > cur.priority,
                        Option::None => false,
                    };
                    proof {
                        assert(rotate == (root_prio(l1opt) > cp));
                    }
                    if rotate {
                        proof {
                            // the lifted root can only be the fresh node
                            assert(npr > cp) by {
                                if npr <= cp {
                                    assert(prio_le(l1opt, cp));
                                }
                            }
                            assert(root_prio(l1opt) == npr);
                            assert(root_children_le(l1opt, cp));
                        }
                        let mut l = cur.left.take().unwrap();
                        let ghost ll = opt_seq(l.left);
                        let ghost lr = opt_seq(l.right);
                        let ghost llopt = l.left;
                        let ghost lv = l.value_view();
                        cur.left = l.right.take();
                        proof {
                            assert(prio_le(cur.left, cp));
                            lemma_prio_le_mono(cur.left, cp, npr);
                            lemma_prio_le_mono(r0opt, cp, npr);
                        }
                        (&mut *cur).update_all();
                        l.right = Some(cur);
                        proof {
                            assert(prio_le(l.left, npr));
                            assert(prio_le(l.right, npr));
                        }
                        (&mut *l).update_all();
                        proof {
                            assert(l.seqv() == ll + seq![lv] + (lr + seq![cv] + r0));
                            assert(l1 == ll + seq![lv] + lr);
                            assert(l.seqv() =~= l1 + seq![cv] + r0);
                            assert(l1 + seq![cv] + r0 =~= old_seq.insert(k as int, nv));
                        }
                        *node = Some(l);
                        proof {
                            assert forall|p: u64|
                                prio_le(*old(node), p) && npr <= p implies prio_le(
                                *node,
                                p,
                            ) by {
                                assert(cp <= p);
                                assert(prio_le(l0opt, p));
                                assert(prio_le(l1opt, p));
                                assert(prio_le((l1opt->0).left, p));
                                assert(prio_le((l1opt->0).right, p));
                                assert(prio_le(r0opt, p));
                                assert(prio_le(((*node)->0).right, p));
                            }
                            assert forall|p: u64|
                                prio_le(*old(node), p) && p < npr implies root_prio(*node) == npr
                                    && root_children_le(*node, p) by {
                                assert(prio_le(l0opt, p));
                                assert(root_children_le(l1opt, p));
                                assert(prio_le(llopt, p));
                                assert(prio_le(r0opt, p));
                            }
                        }
                    } else {
                        proof {
                            assert(npr <= root_prio(l1opt));
                            assert(npr <= cp);
                            assert(prio_le(cur.left, cp));
                        }
                        (&mut *cur).update_all();
                        proof {
                            assert(cur.seqv() =~= old_seq.insert(k as int, nv));
                        }
                        *node = Some(cur);
                        proof {
                            assert forall|p: u64|
                                prio_le(*old(node), p) && npr <= p implies prio_le(
                                *node,
                                p,
                            ) by {
                                assert(prio_le(l0opt, p));
                                assert(prio_le(l1opt, p));
                                assert(prio_le(r0opt, p));
                            }
                            assert forall|p: u64|
                                prio_le(*old(node), p) && p < npr implies root_prio(*node) == npr
                                    && root_children_le(*node, p) by {
                                assert(cp <= p);
                                assert(false);
                            }
                        }
                    }
                } else {
                    Self::insert_after_k_nodes(&mut cur.right, nn, k - ls - 1);
                    let ghost r1 = opt_seq(cur.right);
                    let ghost r1opt = cur.right;
                    proof {
                        assert(r1 == r0.insert(k - ls - 1, nv));
                    }
                    let rotate = match &cur.right {
                        Option::Some(r) => r.priority > cur.priority,
                        Option::None => false,
                    };
                    proof {
                        assert(rotate == (root_prio(r1opt) > cp));
                    }
                    if rotate {
                        proof {
                            assert(npr > cp) by {
                                if npr <= cp {
                                    assert(prio_le(r1opt, cp));
                                }
                            }
                            assert(root_prio(r1opt) == npr);
                            assert(root_children_le(r1opt, cp));
                        }
                        let mut r = cur.right.take().unwrap();
                        let ghost rl = opt_seq(r.left);
                        let ghost rr = opt_seq(r.right);
                        let ghost rropt = r.right;
                        let ghost rv = r.value_view();
                        cur.right = r.left.take();
                        proof {
                            assert(prio_le(cur.right, cp));
                            lemma_prio_le_mono(cur.right, cp, npr);
                            lemma_prio_le_mono(l0opt, cp, npr);
                        }
                        (&mut *cur).update_all();
                        r.left = Some(cur);
                        proof {
                            assert(prio_le(r.left, npr));
                            assert(prio_le(r.right, npr));
                        }
                        (&mut *r).update_all();
                        proof {
                            assert(r.seqv() == (l0 + seq![cv] + rl) + seq![rv] + rr);
                            assert(r1 == rl + seq![rv] + rr);
                            assert(r.seqv() =~= l0 + seq![cv] + r1);
                            assert(l0 + seq![cv] + r1 =~= old_seq.insert(k as int, nv));
                        }
                        *node = Some(r);
                        proof {
                            assert forall|p: u64|
                                prio_le(*old(node), p) && npr <= p implies prio_le(
                                *node,
                                p,
                            ) by {
                                assert(cp <= p);
                                assert(prio_le(l0opt, p));
                                assert(prio_le(r1opt, p));
                                assert(prio_le((r1opt->0).left, p));
                                assert(prio_le((r1opt->0).right, p));
                                assert(prio_le(r0opt, p));
                                assert(prio_le(((*node)->0).left, p));
                            }
                            assert forall|p: u64|
                                prio_le(*old(node), p) && p < npr implies root_prio(*node) == npr
                                    && root_children_le(*node, p) by {
                                assert(prio_le(r0opt, p));
                                assert(root_children_le(r1opt, p));
                                assert(prio_le(rropt, p));
                                assert(prio_le(l0opt, p));
                            }
                        }
                    } else {
                        proof {
                            assert(npr <= root_prio(r1opt));
                            assert(npr <= cp);
                            assert(prio_le(cur.right, cp));
                        }
                        (&mut *cur).update_all();
                        proof {
                            assert(cur.seqv() =~= old_seq.insert(k as int, nv));
                        }
                        *node = Some(cur);
                        proof {
                            assert forall|p: u64|
                                prio_le(*old(node), p) && npr <= p implies prio_le(
                                *node,
                                p,
                            ) by {
                                assert(prio_le(l0opt, p));
                                assert(prio_le(r1opt, p));
                                assert(prio_le(r0opt, p));
                            }
                            assert forall|p: u64|
                                prio_le(*old(node), p) && p < npr implies root_prio(*node) == npr
                                    && root_children_le(*node, p) by {
                                assert(cp <= p);
                                assert(false);
                            }
                        }
                    }
                }
            },
        }
    }

    /// Returns the node holding the k-th value of this subtree.
    pub fn get_kth_node(&self, k: usize) -> (r: Option<&Node<V>>)
        requires
            self.wf(),
            k < self.seqv().len(),
        ensures
            match r {
                Option::Some(n) => n.value_view() == self.seqv()[k as int],
                Option::None => false,
            },
        decreases self,
    {
        let ls = self.left_size();
        if k < ls {
            match &self.left {
                Option::Some(n) => n.get_kth_node(k),
                Option::None => {
                    proof {
                        assert(false);
                    }
                    None
                },
            }
        } else if k == ls {
            Some(self)
        } else {
            match &self.right {
                Option::Some(n) => {
                    let r = n.get_kth_node(k - ls - 1);
                    proof {
                        assert(self.seqv()[k as int] == opt_seq(self.right)[k - ls - 1]);
                    }
                    r
                },
                Option::None => {
                    proof {
                        assert(false);
                    }
                    None
                },
            }
        }
    }

    /// Recomputes this node's cached aggregate from its children's; the
    /// dirty flag stays as it was.
    fn update_tree_sum(&mut self)
        requires
            opt_wf(old(self).left),
            opt_wf(old(self).right),
        ensures
            *final(self) == (Node { tree_sum: final(self).tree_sum, ..*old(self) }),
            final(self).tree_sum@ == agg_sum::<V>(old(self).seqv()),
    {
        let ls: V = match &self.left {
            Option::None => V::identity(),
            Option::Some(n) => n.get_tree_sum(),
        };
        let rs: V = match &self.right {
            Option::None => V::identity(),
            Option::Some(n) => n.get_tree_sum(),
        };
        let front = ls.combine(&self.value);
        let total = front.combine(&rs);
        proof {
            lemma_split_sum::<V>(*self);
            V::lemma_m_assoc(
                agg_sum::<V>(opt_seq(self.left)),
                self.value@,
                agg_sum::<V>(opt_seq(self.right)),
            );
        }
        self.tree_sum = total;
    }

    /// Replaces the k-th value of the subtree, refreshing the cached
    /// aggregates along the descent path.
    pub fn replace_kth_node(node: &mut Option<Box<Node<V>>>, k: usize, new_value: V)
        requires
            opt_wf(*old(node)),
            k < opt_seq(*old(node)).len(),
        ensures
            opt_wf(*final(node)),
            opt_seq(*final(node)) == opt_seq(*old(node)).update(k as int, new_value@),
            forall|p: u64| prio_le(*old(node), p) ==> prio_le(*final(node), p),
        decreases *old(node),
    {
        let ghost old_seq = opt_seq(*old(node));
        let ghost nv = new_value@;
        let mut cur = node.take().unwrap();
        let ghost l0 = opt_seq(cur.left);
        let ghost r0 = opt_seq(cur.right);
        let ghost l0opt = cur.left;
        let ghost r0opt = cur.right;
        let ghost cp = cur.priority;
        let ghost cv = cur.value_view();
        proof {
            assert(prio_le(l0opt, cp));
            assert(prio_le(r0opt, cp));
        }
        let ls = cur.left_size();
        if k < ls {
            Self::replace_kth_node(&mut cur.left, k, new_value);
            proof {
                assert(cur.seqv() =~= old_seq.update(k as int, nv));
            }
        } else if k == ls {
            cur.value = new_value;
            proof {
                assert(cur.seqv() =~= old_seq.update(k as int, nv));
            }
        } else {
            Self::replace_kth_node(&mut cur.right, k - ls - 1, new_value);
            proof {
                assert(cur.seqv() =~= old_seq.update(k as int, nv));
            }
        }
        let ghost l1opt = cur.left;
        let ghost r1opt = cur.right;
        proof {
            assert(prio_le(cur.left, cp));
            assert(prio_le(cur.right, cp));
        }
        (&mut *cur).update_tree_sum();
        *node = Some(cur);
        proof {
            assert forall|p: u64| prio_le(*old(node), p) implies prio_le(*node, p) by {
                assert(prio_le(l0opt, p));
                assert(prio_le(r0opt, p));
                assert(prio_le(l1opt, p));
                assert(prio_le(r1opt, p));
            }
        }
    }

    /// Joins two subtrees, every value of the left one before every value
    /// of the right one; the root with the higher priority wins the top,
    /// the same orientation the insertion rotations keep, so heap order
    /// survives the join.
    fn merge(left: Option<Box<Node<V>>>, right: Option<Box<Node<V>>>) -> (r: Option<Box<Node<V>>>)
        requires
            opt_wf(left),
            opt_wf(right),
            opt_seq(left).len() + opt_seq(right).len() <= usize::MAX,
        ensures
            opt_wf(r),
            opt_seq(r) == opt_seq(left) + opt_seq(right),
            forall|p: u64| prio_le(left, p) && prio_le(right, p) ==> prio_le(r, p),
        decreases opt_seq(left).len() + opt_seq(right).len(),
    {
        if left.is_none() {
            proof {
                assert(opt_seq(left) + opt_seq(right) =~= opt_seq(right));
            }
            return right;
        }
        if right.is_none() {
            proof {
                assert(opt_seq(left) + opt_seq(right) =~= opt_seq(left));
            }
            return left;
        }
        let ghost left0 = left;
        let ghost right0 = right;
        let mut ln = left.unwrap();
        let mut rn = right.unwrap();
        let ghost ll = opt_seq(ln.left);
        let ghost lr = opt_seq(ln.right);
        let ghost lropt = ln.right;
        let ghost lv = ln.value_view();
        let ghost lp = ln.priority;
        let ghost rl = opt_seq(rn.left);
        let ghost rr = opt_seq(rn.right);
        let ghost rlopt = rn.left;
        let ghost rv = rn.value_view();
        let ghost rp = rn.priority;
        if ln.priority >= rn.priority {
            proof {
                assert(prio_le(lropt, lp));
                lemma_prio_le_mono(rlopt, rp, lp);
                lemma_prio_le_mono(rn.right, rp, lp);
                assert(prio_le(right0, lp));
            }
            let tail = ln.right.take();
            let merged = Self::merge(tail, Some(rn));
            ln.right = merged;
            proof {
                assert(prio_le(ln.right, lp));
            }
            (&mut *ln).update_all();
            proof {
                assert(ln.seqv() == ll + seq![lv] + (lr + (rl + seq![rv] + rr)));
                assert(ln.seqv() =~= (ll + seq![lv] + lr) + (rl + seq![rv] + rr));
            }
            let r = Some(ln);
            proof {
                assert forall|p: u64| prio_le(left0, p) && prio_le(right0, p) implies prio_le(
                    r,
                    p,
                ) by {
                    assert(prio_le(lropt, p));
                }
            }
            r
        } else {
            proof {
                assert(prio_le(rlopt, rp));
                lemma_prio_le_mono(ln.left, lp, rp);
                lemma_prio_le_mono(ln.right, lp, rp);
                assert(prio_le(left0, rp));
            }
            let head = rn.left.take();
            let merged = Self::merge(Some(ln), head);
            rn.left = merged;
            proof {
                assert(prio_le(rn.left, rp));
            }
            (&mut *rn).update_all();
            proof {
                assert(rn.seqv() == ((ll + seq![lv] + lr) + rl) + seq![rv] + rr);
                assert(rn.seqv() =~= (ll + seq![lv] + lr) + (rl + seq![rv] + rr));
            }
            let r = Some(rn);
            proof {
                assert forall|p: u64| prio_le(left0, p) && prio_le(right0, p) implies prio_le(
                    r,
                    p,
                ) by {
                    assert(prio_le(rlopt, p));
                }
            }
            r
        }
    }

    /// Removes the values at positions `start` up to but not including
    /// `end` from the subtree.
    #[verifier::rlimit(100)]
    pub fn remove_range(node: &mut Option<Box<Node<V>>>, start: usize, end: usize)
        requires
            opt_wf(*old(node)),
            start <= end,
            end <= opt_seq(*old(node)).len(),
        ensures
            opt_wf(*final(node)),
            opt_seq(*final(node)) == opt_seq(*old(node)).take(start as int) + opt_seq(
                *old(node),
            ).skip(end as int),
            forall|p: u64| prio_le(*old(node), p) ==> prio_le(*final(node), p),
        decreases *old(node),
    {
        let ghost old_seq = opt_seq(*old(node));
        if start == end {
            proof {
                assert(opt_seq(*node) =~= old_seq.take(start as int) + old_seq.skip(end as int));
            }
            return ;
        }
        let mut cur = node.take().unwrap();
        let ghost l0 = opt_seq(cur.left);
        let ghost r0 = opt_seq(cur.right);
        let ghost l0opt = cur.left;
        let ghost r0opt = cur.right;
        let ghost cp = cur.priority;
        let ghost cv = cur.value_view();
        proof {
            assert(prio_le(l0opt, cp));
            assert(prio_le(r0opt, cp));
        }
        let ls = cur.left_size();
        let l_start = if start < ls {
            start
        } else {
            ls
        };
        let l_end = if end < ls {
            end
        } else {
            ls
        };
        Self::remove_range(&mut cur.left, l_start, l_end);
        let r_start = if start > ls + 1 {
            start - ls - 1
        } else {
            0
        };
        let r_end = if end > ls + 1 {
            end - ls - 1
        } else {
            0
        };
        Self::remove_range(&mut cur.right, r_start, r_end);
        let ghost l1 = opt_seq(cur.left);
        let ghost r1 = opt_seq(cur.right);
        let ghost l1opt = cur.left;
        let ghost r1opt = cur.right;
        proof {
            assert(prio_le(cur.left, cp));
            assert(prio_le(cur.right, cp));
        }
        if start <= ls && end > ls {
            let l = cur.left.take();
            let r = cur.right.take();
            let merged = Self::merge(l, r);
            proof {
                assert(l1 =~= old_seq.take(start as int));
                assert(r1 =~= old_seq.skip(end as int));
            }
            *node = merged;
            proof {
                assert forall|p: u64| prio_le(*old(node), p) implies prio_le(*node, p) by {
                    assert(prio_le(l0opt, p));
                    assert(prio_le(r0opt, p));
                    assert(prio_le(l1opt, p));
                    assert(prio_le(r1opt, p));
                }
            }
        } else {
            (&mut *cur).update_all();
            proof {
                if end <= ls {
                    assert(cur.seqv() =~= old_seq.take(start as int) + old_seq.skip(end as int));
                } else {
                    assert(start >= ls + 1);
                    assert(l1 =~= l0);
                    assert(cur.seqv() =~= old_seq.take(start as int) + old_seq.skip(end as int));
                }
            }
            *node = Some(cur);
            proof {
                assert forall|p: u64| prio_le(*old(node), p) implies prio_le(*node, p) by {
                    assert(prio_le(l0opt, p));
                    assert(prio_le(r0opt, p));
                    assert(prio_le(l1opt, p));
                    assert(prio_le(r1opt, p));
                }
            }
        }
    }

    /// The fold of the values at positions `start` up to but not including
    /// `end`, short-circuiting to the cached aggregate where the query
    /// covers the whole subtree.
    pub fn sum_range(&self, start: usize, end: usize) -> (r: V)
        requires
            self.wf(),
            start <= end,
            end <= self.seqv().len(),
        ensures
            r@ == agg_sum::<V>(self.seqv().subrange(start as int, end as int)),
        decreases self,
    {
        let ghost s = self.seqv();
        if start == end {
            let r = V::identity();
            proof {
                assert(s.subrange(start as int, end as int) =~= Seq::empty());
            }
            r
        } else if start == 0 && end == self.size {
            let r = self.get_tree_sum();
            proof {
                assert(s.subrange(start as int, end as int) =~= s);
            }
            r
        } else {
            let ls = self.left_size();
            let ghost l0 = opt_seq(self.left);
            let ghost r0 = opt_seq(self.right);
            let ghost cv = self.value_view();
            if end <= ls {
                match &self.left {
                    Option::Some(n) => {
                        let r = n.sum_range(start, end);
                        proof {
                            assert(s.subrange(start as int, end as int) =~= l0.subrange(
                                start as int,
                                end as int,
                            ));
                        }
                        r
                    },
                    Option::None => {
                        proof {
                            assert(false);
                        }
                        V::identity()
                    },
                }
            } else if start >= ls + 1 {
                match &self.right {
                    Option::Some(n) => {
                        let r = n.sum_range(start - ls - 1, end - ls - 1);
                        proof {
                            assert(s.subrange(start as int, end as int) =~= r0.subrange(
                                start - ls - 1,
                                end - ls - 1,
                            ));
                        }
                        r
                    },
                    Option::None => {
                        proof {
                            assert(false);
                        }
                        V::identity()
                    },
                }
            } else {
                let left_sum: V = match &self.left {
                    Option::Some(n) => n.sum_range(start, ls),
                    Option::None => {
                        proof {
                            assert(l0.subrange(start as int, ls as int) =~= Seq::empty());
                        }
                        V::identity()
                    },
                };
                let right_sum: V = match &self.right {
                    Option::Some(n) => n.sum_range(0, end - ls - 1),
                    Option::None => {
                        proof {
                            assert(r0.subrange(0, end - ls - 1) =~= Seq::empty());
                        }
                        V::identity()
                    },
                };
                let front = left_sum.combine(&self.value);
                let total = front.combine(&right_sum);
                proof {
                    let la = l0.subrange(start as int, ls as int);
                    let ra = r0.subrange(0, end - ls - 1);
                    assert(s.subrange(start as int, end as int) =~= la + (seq![cv] + ra));
                    lemma_agg_sum_concat::<V>(la, seq![cv] + ra);
                    lemma_agg_sum_concat::<V>(seq![cv], ra);
                    lemma_agg_sum_singleton::<V>(cv);
                    V::lemma_m_assoc(agg_sum::<V>(la), cv, agg_sum::<V>(ra));
                }
                total
            }
        }
    }
}

impl<V: Aggregate> TreapList<V> {
    /// The sequence of value views held by the list, in positional order.
    pub closed spec fn seqv(self) -> Seq<<V as View>::V> {
        opt_seq(self.root)
    }

    /// The list's structural invariant.
    pub closed spec fn wf(self) -> bool {
        opt_wf(self.root)
    }

    /// Creates an empty list.
    pub fn new() -> (r: Self)
        ensures
            r.wf(),
            r@ == Seq::<<V as View>::V>::empty(),
    {
        TreapList { root: None }
    }

    /// Returns the number of values in the list.
    pub fn size(&self) -> (r: usize)
        requires
            self.wf(),
        ensures
            r == self@.len(),
    {
        match &self.root {
            Option::None => 0,
            Option::Some(n) => n.size,
        }
    }

    /// Tests whether the list holds no values.
    pub fn is_empty(&self) -> (r: bool)
        requires
            self.wf(),
        ensures
            r == (self@.len() == 0),
    {
        self.root.is_none()
    }

    /// Inserts a value so that it becomes the k-th of the list.
    pub fn insert_after_k_nodes(&mut self, value: V, k: usize)
        requires
            old(self).wf(),
            k <= old(self)@.len(),
            old(self)@.len() < usize::MAX,
        ensures
            final(self).wf(),
            final(self)@ == old(self)@.insert(k as int, value@),
    {
        let pr = random_priority();
        let ts = value.copy_value();
        let ghost vv = value@;
        let nn = Box::new(
            Node {
                value,
                priority: pr,
                left: None,
                right: None,
                tree_sum: ts,
                size: 1,
                lazy: false,
            },
        );
        proof {
            assert(nn.seqv() =~= seq![vv]);
            lemma_agg_sum_singleton::<V>(vv);
        }
        Node::insert_after_k_nodes(&mut self.root, nn, k);
    }

    /// Appends a value at the end of the list.
    pub fn push(&mut self, value: V)
        requires
            old(self).wf(),
            old(self)@.len() < usize::MAX,
        ensures
            final(self).wf(),
            final(self)@ == old(self)@.push(value@),
    {
        let k = self.size();
        let ghost vv = value@;
        self.insert_after_k_nodes(value, k);
        proof {
            assert(final(self)@ =~= old(self)@.push(vv));
        }
    }

    /// Returns the k-th value of the list.
    pub fn get(&self, k: usize) -> (r: Option<&V>)
        requires
            self.wf(),
            k < self@.len(),
        ensures
            match r {
                Option::Some(v) => v@ == self@[k as int],
                Option::None => false,
            },
    {
        match &self.root {
            Option::Some(root) => {
                match root.get_kth_node(k) {
                    Option::Some(n) => Some(n.value_ref()),
                    Option::None => None,
                }
            },
            Option::None => {
                proof {
                    assert(false);
                }
                None
            },
        }
    }

    /// Replaces the k-th value of the list.
    pub fn replace(&mut self, k: usize, new_value: V)
        requires
            old(self).wf(),
            k < old(self)@.len(),
        ensures
            final(self).wf(),
            final(self)@ == old(self)@.update(k as int, new_value@),
    {
        Node::replace_kth_node(&mut self.root, k, new_value);
    }

    /// Removes the values at positions `range.start` up to but not
    /// including `range.end`.
    pub fn remove_range(&mut self, range: core::ops::Range<usize>)
        requires
            old(self).wf(),
            range.start <= range.end,
            range.end <= old(self)@.len(),
        ensures
            final(self).wf(),
            final(self)@ == old(self)@.take(range.start as int) + old(self)@.skip(
                range.end as int,
            ),
    {
        Node::remove_range(&mut self.root, range.start, range.end);
    }

    /// The fold of the values at positions `range.start` up to but not
    /// including `range.end`.
    pub fn sum_range(&self, range: core::ops::Range<usize>) -> (r: V)
        requires
            self.wf(),
            range.start <= range.end,
            range.end <= self@.len(),
        ensures
            r@ == agg_sum::<V>(self@.subrange(range.start as int, range.end as int)),
    {
        match &self.root {
            Option::Some(n) => n.sum_range(range.start, range.end),
            Option::None => {
                let r = V::identity();
                proof {
                    assert(self@.subrange(range.start as int, range.end as int) =~= Seq::empty());
                }
                r
            },
        }
    }

    /// Removes and returns the first value, if any.
    pub fn next(&mut self) -> (r: Option<V>)
        requires
            old(self).wf(),
        ensures
            final(self).wf(),
            match r {
                Option::Some(v) => old(self)@.len() > 0 && v@ == old(self)@[0] && final(self)@
                    == old(self)@.drop_first(),
                Option::None => old(self)@.len() == 0 && final(self)@ == old(self)@,
            },
    {
        if self.is_empty() {
            return None;
        }
        let v = match self.get(0) {
            Option::Some(v) => v.copy_value(),
            Option::None => {
                proof {
                    assert(false);
                }
                V::identity()
            },
        };
        self.remove_range(0..1usize);
        proof {
            assert(final(self)@ =~= old(self)@.drop_first());
        }
        Some(v)
    }

    /// A copy of the list with the same contents.
    pub fn duplicate(&self) -> (r: Self)
        requires
            self.wf(),
        ensures
            r.wf(),
            r@ == self@,
    {
        TreapList { root: Node::duplicate_opt(&self.root) }
    }
}

impl<V: Aggregate> Node<V> {
    /// A structural copy of an optional subtree with the same value views.
    fn duplicate_opt(o: &Option<Box<Node<V>>>) -> (r: Option<Box<Node<V>>>)
        requires
            opt_wf(*o),
        ensures
            opt_wf(r),
            opt_seq(r) == opt_seq(*o),
            forall|p: u64| prio_le(*o, p) ==> prio_le(r, p),
        decreases *o,
    {
        match o {
            Option::None => None,
            Option::Some(n) => {
                let left = Self::duplicate_opt(&n.left);
                let right = Self::duplicate_opt(&n.right);
                proof {
                    assert(prio_le(left, n.priority));
                    assert(prio_le(right, n.priority));
                }
                let copy = Box::new(
                    Node {
                        value: n.value.copy_value(),
                        priority: n.priority,
                        left,
                        right,
                        tree_sum: n.tree_sum.copy_value(),
                        size: n.size,
                        lazy: n.lazy,
                    },
                );
                let r = Some(copy);
                proof {
                    assert((r->0).seqv() =~= n.seqv());
                    assert forall|p: u64| prio_le(*o, p) implies prio_le(r, p) by {
                        assert(prio_le(n.left, p));
                        assert(prio_le(n.right, p));
                        assert(prio_le((r->0).left, p));
                        assert(prio_le((r->0).right, p));
                    }
                }
                r
            },
        }
    }
}

/// A well-formed list's length fits the machine word, since the root
/// carries it as a size.
pub proof fn lemma_len_fits<V: Aggregate>(t: TreapList<V>)
    requires
        t.wf(),
    ensures
        t@.len() <= usize::MAX,
{
    match t.root {
        Option::None => {
            assert(t@ =~= Seq::<<V as View>::V>::empty());
        },
        Option::Some(n) => {
            assert(n.wf());
            assert(n.size == n.seqv().len());
        },
    }
}

impl<V: Aggregate> Default for TreapList<V> {
    /// The empty list.
    fn default() -> (r: Self)
        ensures
            r.wf(),
            r@ == Seq::<<V as View>::V>::empty(),
    {
        TreapList::new()
    }
}

impl<V: Aggregate> View for TreapList<V> {
    type V = Seq<<V as View>::V>;

    open spec fn view(&self) -> Seq<<V as View>::V> {
        self.seqv()
    }
}

} // verus!
