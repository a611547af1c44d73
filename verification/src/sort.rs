//! A stable merge sort over any type that ranks its values.
use std::collections::VecDeque;
use vstd::prelude::*;

verus! {

/// A type whose values are ranked by a total preorder.
pub trait Ranked: Sized {
    /// Whether `self` may stand in front of `other`.
    spec fn ranks(&self, other: &Self) -> bool;

    /// Of two values one may stand in front of the other.
    proof fn ranks_total(a: &Self, b: &Self)
        ensures
            a.ranks(b) || b.ranks(a),
    ;

    /// Ranking is transitive.
    proof fn ranks_transitive(a: &Self, b: &Self, c: &Self)
        requires
            a.ranks(b),
            b.ranks(c),
        ensures
            a.ranks(c),
    ;

    /// Decides whether `self` may stand in front of `other`.
    fn at_most(&self, other: &Self) -> (r: bool)
        ensures
            r == self.ranks(other),
    ;
}

/// Whether each value may stand in front of all that follow it.
pub open spec fn ascending<T: Ranked>(s: Seq<T>) -> bool {
    forall|i: int, j: int|
        #![trigger s[i], s[j]]
        0 <= i < j < s.len() ==> s[i].ranks(&s[j])
}

/// Whether two values have the same rank.
pub open spec fn level<T: Ranked>(a: T, b: T) -> bool {
    a.ranks(&b) && b.ranks(&a)
}

/// The values of `s` that have the rank of `k`, in their order.
pub open spec fn peers<T: Ranked>(s: Seq<T>, k: T) -> Seq<T> {
    s.filter(|x: T| level(x, k))
}

/// Whether `r` is `s` put into ascending order, with values of the same rank
/// left in the order they had.
pub open spec fn sorts<T: Ranked>(r: Seq<T>, s: Seq<T>) -> bool {
    &&& ascending(r)
    &&& r.to_multiset() == s.to_multiset()
    &&& forall|k: T| #[trigger] peers(r, k) == peers(s, k)
}

proof fn lemma_peers_concat<T: Ranked>(a: Seq<T>, b: Seq<T>, k: T)
    ensures
        peers(a + b, k) == peers(a, k) + peers(b, k),
{
    Seq::filter_distributes_over_add(a, b, |x: T| level(x, k));
}

proof fn lemma_peers_one<T: Ranked>(x: T, k: T)
    ensures
        peers(seq![x], k) == (if level(x, k) {
            seq![x]
        } else {
            Seq::<T>::empty()
        }),
{
    reveal_with_fuel(Seq::filter, 2);
    assert(seq![x].drop_last() =~= Seq::<T>::empty());
    assert(peers(seq![x], k) =~= (if level(x, k) {
        seq![x]
    } else {
        Seq::<T>::empty()
    }));
}

proof fn lemma_no_peers<T: Ranked>(s: Seq<T>, k: T)
    requires
        forall|i: int| 0 <= i < s.len() ==> !level(#[trigger] s[i], k),
    ensures
        peers(s, k) == Seq::<T>::empty(),
    decreases s.len(),
{
    reveal(Seq::filter);
    if s.len() > 0 {
        assert forall|i: int| 0 <= i < s.drop_last().len() implies !level(
            #[trigger] s.drop_last()[i],
            k,
        ) by {
            assert(s.drop_last()[i] == s[i]);
        }
        lemma_no_peers(s.drop_last(), k);
        assert(!level(s[s.len() - 1], k));
    }
    assert(peers(s, k) =~= Seq::<T>::empty());
}

/// Whether every value of `a` may stand in front of every value of `b`.
spec fn all_rank<T: Ranked>(a: Seq<T>, b: Seq<T>) -> bool {
    forall|i: int, j: int|
        #![trigger a[i], b[j]]
        0 <= i < a.len() && 0 <= j < b.len() ==> a[i].ranks(&b[j])
}

fn merge<T: Ranked>(a: VecDeque<T>, b: VecDeque<T>) -> (r: VecDeque<T>)
    requires
        ascending(a@),
        ascending(b@),
    ensures
        sorts(r@, a@ + b@),
{
    let ghost all = a@ + b@;
    let mut a = a;
    let mut b = b;
    let mut r: VecDeque<T> = VecDeque::new();
    assert(r@ + a@ + b@ =~= all);
    while a.len() > 0 && b.len() > 0
        invariant
            ascending(r@),
            ascending(a@),
            ascending(b@),
            all_rank(r@, a@),
            all_rank(r@, b@),
            (r@ + a@ + b@).to_multiset() == all.to_multiset(),
            forall|k: T| #[trigger] peers(r@ + a@ + b@, k) == peers(all, k),
        decreases a.len() + b.len(),
    {
        let ghost r0 = r@;
        let ghost a0 = a@;
        let ghost b0 = b@;
        if a[0].at_most(&b[0]) {
            proof {
                assert forall|j: int|
                    #![trigger b0[j]]
                    0 <= j < b0.len() implies a0[0].ranks(&b0[j]) by {
                    if j > 0 {
                        T::ranks_transitive(&a0[0], &b0[0], &b0[j]);
                    }
                }
            }
            if let Some(x) = a.pop_front() {
                r.push_back(x);
                proof {
                    assert(a0 =~= seq![x] + a@);
                    assert(r@ + a@ + b@ =~= r0 + a0 + b0);
                    assert(ascending(r@)) by {
                        assert forall|i: int, j: int|
                            #![trigger r@[i], r@[j]]
                            0 <= i < j < r@.len() implies r@[i].ranks(&r@[j]) by {
                            if j == r0.len() {
                                assert(r0[i].ranks(&a0[0]));
                            } else {
                                assert(r0[i].ranks(&r0[j]));
                            }
                        }
                    }
                    assert(ascending(a@)) by {
                        assert forall|i: int, j: int|
                            #![trigger a@[i], a@[j]]
                            0 <= i < j < a@.len() implies a@[i].ranks(&a@[j]) by {
                            assert(a0[i + 1].ranks(&a0[j + 1]));
                        }
                    }
                    assert(all_rank(r@, a@)) by {
                        assert forall|i: int, j: int|
                            #![trigger r@[i], a@[j]]
                            0 <= i < r@.len() && 0 <= j < a@.len() implies r@[i].ranks(&a@[j]) by {
                            if i == r0.len() {
                                assert(a0[0].ranks(&a0[j + 1]));
                            } else {
                                assert(r0[i].ranks(&a0[j + 1]));
                            }
                        }
                    }
                    assert(all_rank(r@, b@)) by {
                        assert forall|i: int, j: int|
                            #![trigger r@[i], b@[j]]
                            0 <= i < r@.len() && 0 <= j < b@.len() implies r@[i].ranks(&b@[j]) by {
                            if i < r0.len() {
                                assert(r0[i].ranks(&b0[j]));
                            }
                        }
                    }
                }
            }
        } else {
            proof {
                T::ranks_total(&a0[0], &b0[0]);
                assert forall|j: int|
                    #![trigger a0[j]]
                    0 <= j < a0.len() implies b0[0].ranks(&a0[j]) by {
                    if j > 0 {
                        T::ranks_transitive(&b0[0], &a0[0], &a0[j]);
                    }
                }
            }
            if let Some(y) = b.pop_front() {
                r.push_back(y);
                proof {
                    assert(b0 =~= seq![y] + b@);
                    lemma_take_from_right(r0, a0, b0);
                    assert(r0.push(b0[0]) =~= r@);
                    assert(b0.drop_first() =~= b@);
                    assert(forall|k: T|
                        #[trigger] peers(r@ + a@ + b@, k) == peers(r0 + a0 + b0, k));
                    assert(ascending(r@)) by {
                        assert forall|i: int, j: int|
                            #![trigger r@[i], r@[j]]
                            0 <= i < j < r@.len() implies r@[i].ranks(&r@[j]) by {
                            if j == r0.len() {
                                assert(r0[i].ranks(&b0[0]));
                            } else {
                                assert(r0[i].ranks(&r0[j]));
                            }
                        }
                    }
                    assert(ascending(b@)) by {
                        assert forall|i: int, j: int|
                            #![trigger b@[i], b@[j]]
                            0 <= i < j < b@.len() implies b@[i].ranks(&b@[j]) by {
                            assert(b0[i + 1].ranks(&b0[j + 1]));
                        }
                    }
                    assert(all_rank(r@, b@)) by {
                        assert forall|i: int, j: int|
                            #![trigger r@[i], b@[j]]
                            0 <= i < r@.len() && 0 <= j < b@.len() implies r@[i].ranks(&b@[j]) by {
                            if i == r0.len() {
                                assert(b0[0].ranks(&b0[j + 1]));
                            } else {
                                assert(r0[i].ranks(&b0[j + 1]));
                            }
                        }
                    }
                    assert(all_rank(r@, a@)) by {
                        assert forall|i: int, j: int|
                            #![trigger r@[i], a@[j]]
                            0 <= i < r@.len() && 0 <= j < a@.len() implies r@[i].ranks(&a@[j]) by {
                            if i < r0.len() {
                                assert(r0[i].ranks(&a0[j]));
                            }
                        }
                    }
                }
            }
        }
    }
    let ghost r1 = r@;
    let ghost a1 = a@;
    let ghost b1 = b@;
    r.append(&mut a);
    r.append(&mut b);
    proof {
        assert(r@ =~= r1 + a1 + b1);
        assert forall|i: int, j: int|
            #![trigger r@[i], r@[j]]
            0 <= i < j < r@.len() implies r@[i].ranks(&r@[j]) by {
            let n = r1.len() as int;
            if j < n {
                assert(r1[i].ranks(&r1[j]));
            } else if a1.len() == 0 {
                assert(r@[j] == b1[j - n]);
                if i < n {
                    assert(r1[i].ranks(&b1[j - n]));
                } else {
                    assert(b1[i - n].ranks(&b1[j - n]));
                }
            } else {
                assert(r@[j] == a1[j - n]);
                if i < n {
                    assert(r1[i].ranks(&a1[j - n]));
                } else {
                    assert(a1[i - n].ranks(&a1[j - n]));
                }
            }
        }
    }
    r
}

/// Moving the first of `b` in front of all of `a` changes neither the values
/// nor the order among values of one rank, if it ranks strictly below all of `a`.
proof fn lemma_take_from_right<T: Ranked>(r: Seq<T>, a: Seq<T>, b: Seq<T>)
    requires
        b.len() > 0,
        a.len() > 0,
        !a[0].ranks(&b[0]),
        ascending(a),
        forall|j: int|
            #![trigger a[j]]
            0 <= j < a.len() ==> b[0].ranks(&a[j]),
    ensures
        (r.push(b[0]) + a + b.drop_first()).to_multiset() == (r + a + b).to_multiset(),
        forall|k: T|
            #[trigger] peers(r.push(b[0]) + a + b.drop_first(), k) == peers(r + a + b, k),
{
    let y = b[0];
    let c = b.drop_first();
    assert(b =~= seq![y] + c);
    assert(r.push(y) =~= r + seq![y]);
    broadcast use vstd::seq_lib::group_to_multiset_ensures;

    vstd::seq_lib::lemma_multiset_commutative(r + seq![y] + a, c);
    vstd::seq_lib::lemma_multiset_commutative(r + seq![y], a);
    vstd::seq_lib::lemma_multiset_commutative(r, seq![y]);
    vstd::seq_lib::lemma_multiset_commutative(r + a, b);
    vstd::seq_lib::lemma_multiset_commutative(r, a);
    vstd::seq_lib::lemma_multiset_commutative(seq![y], c);
    assert((r.push(y) + a + c).to_multiset() =~= (r + a + b).to_multiset());
    assert forall|k: T| #[trigger] peers(r.push(y) + a + c, k) == peers(r + a + b, k) by {
        lemma_peers_concat(r + seq![y] + a, c, k);
        lemma_peers_concat(r + seq![y], a, k);
        lemma_peers_concat(r, seq![y], k);
        lemma_peers_concat(r + a, b, k);
        lemma_peers_concat(r, a, k);
        lemma_peers_concat(seq![y], c, k);
        lemma_peers_one(y, k);
        if level(y, k) {
            assert forall|j: int| 0 <= j < a.len() implies !level(#[trigger] a[j], k) by {
                if level(a[j], k) {
                    T::ranks_transitive(&a[j], &k, &y);
                    if j > 0 {
                        T::ranks_transitive(&a[0], &a[j], &y);
                    }
                }
            }
            lemma_no_peers(a, k);
        }
        assert(peers(r.push(y) + a + c, k) =~= peers(r + a + b, k));
    }
}

/// Puts the values into ascending order; values of the same rank keep theirs.
pub fn sort<T: Ranked>(v: VecDeque<T>) -> (r: VecDeque<T>)
    ensures
        sorts(r@, v@),
    decreases v@.len(),
{
    if v.len() <= 1 {
        return v;
    }
    let ghost all = v@;
    let mut left = v;
    let mid: usize = left.len() / 2;
    let right = left.split_off(mid);
    let ghost l0 = left@;
    let ghost r0 = right@;
    assert(all =~= l0 + r0);
    let left = sort(left);
    let right = sort(right);
    let ghost l1 = left@;
    let ghost r1 = right@;
    let r = merge(left, right);
    proof {
        broadcast use vstd::seq_lib::group_to_multiset_ensures;

        vstd::seq_lib::lemma_multiset_commutative(l1, r1);
        vstd::seq_lib::lemma_multiset_commutative(l0, r0);
        assert forall|k: T| #[trigger] peers(r@, k) == peers(all, k) by {
            assert(peers(r@, k) == peers(l1 + r1, k));
            lemma_peers_concat(l1, r1, k);
            lemma_peers_concat(l0, r0, k);
            assert(peers(l1, k) == peers(l0, k));
            assert(peers(r1, k) == peers(r0, k));
        }
    }
    r
}

/// What it is to be sorted: nothing is lost or added, each value may stand in front of
/// all that follow it, and those of one rank keep their order.
pub proof fn law_what_sorting_is<T: Ranked>(r: Seq<T>, s: Seq<T>, k: T, i: int, j: int)
    requires
        sorts(r, s),
    ensures
        r.to_multiset() == s.to_multiset(),
        0 <= i < j < r.len() ==> r[i].ranks(&r[j]),
        r.filter(|x: T| x.ranks(&k) && k.ranks(&x)) == s.filter(
            |x: T| x.ranks(&k) && k.ranks(&x),
        ),
{
    assert(peers(r, k) == peers(s, k));
    let f = |x: T| level(x, k);
    let g = |x: T| x.ranks(&k) && k.ranks(&x);
    assert(f =~= g);
}

} // verus!
