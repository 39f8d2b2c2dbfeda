use vstd::prelude::*;

verus! {

/// A value that can be stored in the aggregate order tree: it carries an
/// identity element and an associative combine operation, both stated over
/// the value's view so that distinct allocations with equal contents
/// combine alike.
pub trait Aggregate: View + Sized {
    /// The identity element of the combine operation.
    spec fn m_id() -> Self::V;

    /// The combine operation.
    spec fn m_op(a: Self::V, b: Self::V) -> Self::V;

    /// The combine operation is associative.
    proof fn lemma_m_assoc(a: Self::V, b: Self::V, c: Self::V)
        ensures
            Self::m_op(Self::m_op(a, b), c) == Self::m_op(a, Self::m_op(b, c)),
    ;

    /// The identity element is neutral on both sides.
    proof fn lemma_m_id(a: Self::V)
        ensures
            Self::m_op(a, Self::m_id()) == a,
            Self::m_op(Self::m_id(), a) == a,
    ;

    /// Produces the identity element.
    fn identity() -> (r: Self)
        ensures
            r@ == Self::m_id(),
    ;

    /// Combines two values.
    fn combine(&self, other: &Self) -> (r: Self)
        ensures
            r@ == Self::m_op(self@, other@),
    ;

    /// An explicit copy whose view equals the original's.
    fn copy_value(&self) -> (r: Self)
        ensures
            r@ == self@,
    ;
}

/// The combined value of a whole sequence, folded from the left element on.
pub open spec fn agg_sum<V: Aggregate>(s: Seq<<V as View>::V>) -> <V as View>::V
    decreases s.len(),
{
    if s.len() == 0 {
        V::m_id()
    } else {
        V::m_op(s[0], agg_sum::<V>(s.drop_first()))
    }
}

/// Folding a concatenation combines the folds of the parts.
pub proof fn lemma_agg_sum_concat<V: Aggregate>(a: Seq<<V as View>::V>, b: Seq<<V as View>::V>)
    ensures
        agg_sum::<V>(a + b) == V::m_op(agg_sum::<V>(a), agg_sum::<V>(b)),
    decreases a.len(),
{
    if a.len() == 0 {
        assert(a + b =~= b);
        V::lemma_m_id(agg_sum::<V>(b));
    } else {
        assert((a + b).drop_first() =~= a.drop_first() + b);
        assert((a + b)[0] == a[0]);
        lemma_agg_sum_concat::<V>(a.drop_first(), b);
        V::lemma_m_assoc(a[0], agg_sum::<V>(a.drop_first()), agg_sum::<V>(b));
    }
}

/// Folding a single element yields that element.
pub proof fn lemma_agg_sum_singleton<V: Aggregate>(x: <V as View>::V)
    ensures
        agg_sum::<V>(seq![x]) == x,
{
    let s = seq![x];
    assert(s.drop_first() =~= Seq::<<V as View>::V>::empty());
    assert(agg_sum::<V>(s) == V::m_op(x, agg_sum::<V>(s.drop_first())));
    assert(agg_sum::<V>(s.drop_first()) == V::m_id());
    V::lemma_m_id(x);
}

/// The plain mathematical sum of a sequence of machine integers, folded
/// as the tree folds, without wrapping.
pub open spec fn exact_sum_i32(s: Seq<i32>) -> int
    decreases s.len(),
{
    if s.len() == 0 {
        0
    } else {
        s[0] + exact_sum_i32(s.drop_first())
    }
}

/// Law: the tree's folded aggregate over machine integers equals the
/// plain sum a reference list replay computes, wherever the fold's
/// partial sums stay within the machine range — exactly the inputs on
/// which a reference fold with plain addition is defined at all.
pub proof fn lemma_agg_sum_i32_exact(s: Seq<i32>)
    requires
        forall|i: int| 0 <= i <= s.len() ==> i32::MIN <= #[trigger] exact_sum_i32(s.skip(i))
            <= i32::MAX,
    ensures
        agg_sum::<i32>(s) == exact_sum_i32(s),
    decreases s.len(),
{
    if s.len() > 0 {
        let rest = s.drop_first();
        assert forall|i: int| 0 <= i <= rest.len() implies i32::MIN <= #[trigger] exact_sum_i32(
            rest.skip(i),
        ) <= i32::MAX by {
            assert(rest.skip(i) =~= s.skip(i + 1));
        }
        lemma_agg_sum_i32_exact(rest);
        assert(rest =~= s.skip(1));
        assert(s.skip(0) =~= s);
    }
}

impl Aggregate for i32 {
    open spec fn m_id() -> i32 {
        0
    }

    open spec fn m_op(a: i32, b: i32) -> i32 {
        vstd::wrapping::i32_specs::wrapping_add(a, b)
    }

    proof fn lemma_m_assoc(a: i32, b: i32, c: i32) {
    }

    proof fn lemma_m_id(a: i32) {
    }

    fn identity() -> (r: i32) {
        0
    }

    fn combine(&self, other: &i32) -> (r: i32) {
        self.wrapping_add(*other)
    }

    fn copy_value(&self) -> (r: i32) {
        *self
    }
}

impl Aggregate for usize {
    open spec fn m_id() -> usize {
        0
    }

    open spec fn m_op(a: usize, b: usize) -> usize {
        vstd::wrapping::usize_specs::wrapping_add(a, b)
    }

    proof fn lemma_m_assoc(a: usize, b: usize, c: usize) {
    }

    proof fn lemma_m_id(a: usize) {
    }

    fn identity() -> (r: usize) {
        0
    }

    fn combine(&self, other: &usize) -> (r: usize) {
        self.wrapping_add(*other)
    }

    fn copy_value(&self) -> (r: usize) {
        *self
    }
}

} // verus!
