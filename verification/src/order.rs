//! Stable ordering of sequences: the one sorting routine of the library and
//! what holds of its result.

use vstd::prelude::*;
use vstd::seq_lib::to_multiset_insert;

verus! {

/// A type whose values can be ranked by what they stand for: of two views
/// one may stand before the other, or each before the other where they tie.
pub trait Ranked: View + Sized {
    /// Whether `a` may stand before `b` in ranked order.
    spec fn may_precede(a: Self::V, b: Self::V) -> bool;

    /// Whether `self` may stand before `other` in ranked order.
    fn precedes(&self, other: &Self) -> (r: bool)
        ensures
            r == Self::may_precede(self@, other@),
    ;

    /// Of any two views one may stand before the other.
    proof fn lemma_total(a: Self::V, b: Self::V)
        ensures
            Self::may_precede(a, b) || Self::may_precede(b, a),
    ;

    /// What may stand before a view may stand before all that the view may
    /// stand before.
    proof fn lemma_transitive(a: Self::V, b: Self::V, c: Self::V)
        requires
            Self::may_precede(a, b),
            Self::may_precede(b, c),
        ensures
            Self::may_precede(a, c),
    ;
}

/// The views of a sequence of values.
pub open spec fn views<T: View>(s: Seq<T>) -> Seq<T::V> {
    Seq::new(s.len(), |i: int| s[i]@)
}

/// Where `x` goes among the first `to` members of `s`: behind the last
/// member that may stand before it.
pub open spec fn slot<T: Ranked>(s: Seq<T::V>, x: T::V, to: int) -> int
    decreases to,
{
    if 0 < to <= s.len() && !T::may_precede(s[to - 1], x) {
        slot::<T>(s, x, to - 1)
    } else {
        to
    }
}

/// `s` with `x` put behind the last member that may stand before it.
pub open spec fn placed<T: Ranked>(s: Seq<T::V>, x: T::V) -> Seq<T::V> {
    s.insert(slot::<T>(s, x, s.len() as int), x)
}

/// `s` in ranked order, members that tie keeping the order they had in `s`.
pub open spec fn ranked<T: Ranked>(s: Seq<T::V>) -> Seq<T::V>
    decreases s.len(),
{
    if s.len() == 0 {
        Seq::empty()
    } else {
        placed::<T>(ranked::<T>(s.drop_last()), s.last())
    }
}

/// Whether each member of `s` may stand before every later one.
pub open spec fn in_order<T: Ranked>(s: Seq<T::V>) -> bool {
    forall|i: int, j: int|
        #![trigger s[i], s[j]]
        0 <= i < j < s.len() ==> T::may_precede(s[i], s[j])
}

/// Where a value goes: every member from there on may not stand before it,
/// and the member just ahead may.
pub proof fn lemma_slot_bounds<T: Ranked>(s: Seq<T::V>, x: T::V, to: int)
    requires
        0 <= to <= s.len(),
    ensures
        0 <= slot::<T>(s, x, to) <= to,
        forall|k: int| slot::<T>(s, x, to) <= k < to ==> !T::may_precede(#[trigger] s[k], x),
        slot::<T>(s, x, to) > 0 ==> T::may_precede(s[slot::<T>(s, x, to) - 1], x),
    decreases to,
{
    if 0 < to && !T::may_precede(s[to - 1], x) {
        lemma_slot_bounds::<T>(s, x, to - 1);
    }
}

/// Placing a value into an ordered sequence keeps it ordered, and adds the
/// value and nothing else.
pub proof fn lemma_placed_in_order<T: Ranked>(s: Seq<T::V>, x: T::V)
    requires
        in_order::<T>(s),
    ensures
        in_order::<T>(placed::<T>(s, x)),
        placed::<T>(s, x).len() == s.len() + 1,
        placed::<T>(s, x).to_multiset() == s.to_multiset().insert(x),
{
    let p = slot::<T>(s, x, s.len() as int);
    lemma_slot_bounds::<T>(s, x, s.len() as int);
    let t = placed::<T>(s, x);
    to_multiset_insert(s, p, x);
    assert forall|i: int, j: int| #![trigger t[i], t[j]] 0 <= i < j < t.len() implies T::may_precede(
        t[i],
        t[j],
    ) by {
        if j < p {
            assert(t[i] == s[i] && t[j] == s[j]);
        } else if j == p {
            assert(t[i] == s[i]);
            if i < p - 1 {
                assert(T::may_precede(s[i], s[p - 1]));
                T::lemma_transitive(s[i], s[p - 1], x);
            }
        } else if i == p {
            assert(t[j] == s[j - 1]);
            assert(!T::may_precede(s[j - 1], x));
            T::lemma_total(x, s[j - 1]);
        } else if i < p {
            assert(t[i] == s[i] && t[j] == s[j - 1]);
        } else {
            assert(t[i] == s[i - 1] && t[j] == s[j - 1]);
        }
    }
}

/// The ranked form of a sequence is in order and holds the same members,
/// each as often as the sequence does.
pub proof fn lemma_ranked<T: Ranked>(s: Seq<T::V>)
    ensures
        in_order::<T>(ranked::<T>(s)),
        ranked::<T>(s).len() == s.len(),
        ranked::<T>(s).to_multiset() == s.to_multiset(),
    decreases s.len(),
{
    broadcast use vstd::seq_lib::to_multiset_build;

    if s.len() == 0 {
        assert(ranked::<T>(s) == s);
    } else {
        lemma_ranked::<T>(s.drop_last());
        lemma_placed_in_order::<T>(ranked::<T>(s.drop_last()), s.last());
        assert(s.drop_last().push(s.last()) == s);
    }
}

/// A value is a member of the ranked form exactly when it is one of the
/// sequence.
pub proof fn lemma_ranked_contains<T: Ranked>(s: Seq<T::V>, x: T::V)
    ensures
        ranked::<T>(s).contains(x) <==> s.contains(x),
{
    lemma_ranked::<T>(s);
    vstd::seq_lib::to_multiset_contains(s, x);
    vstd::seq_lib::to_multiset_contains(ranked::<T>(s), x);
}

/// Two ordered sequences run into one: the members of both in ranked
/// order, a member of `b` standing behind the members of `a` that it ties
/// with.
pub open spec fn merged<T: Ranked>(a: Seq<T::V>, b: Seq<T::V>) -> Seq<T::V>
    decreases a.len() + b.len(),
{
    if a.len() == 0 {
        b
    } else if b.len() == 0 {
        a
    } else if T::may_precede(a.last(), b.last()) {
        merged::<T>(a, b.drop_last()).push(b.last())
    } else {
        merged::<T>(a.drop_last(), b).push(a.last())
    }
}

/// Where a value goes among the first `to` members depends on those
/// members only.
pub proof fn lemma_slot_of_prefix<T: Ranked>(s: Seq<T::V>, x: T::V, to: int, k: int)
    requires
        0 <= to <= k <= s.len(),
    ensures
        slot::<T>(s.take(k), x, to) == slot::<T>(s, x, to),
    decreases to,
{
    if 0 < to && !T::may_precede(s[to - 1], x) {
        lemma_slot_of_prefix::<T>(s, x, to - 1, k);
    }
}

/// A value goes to the end of a sequence that is empty or whose last member
/// may stand before it, and ahead of a last member that may not.
pub proof fn lemma_placed_by_last<T: Ranked>(s: Seq<T::V>, x: T::V)
    ensures
        s.len() == 0 || T::may_precede(s.last(), x) ==> placed::<T>(s, x) == s.push(x),
        s.len() > 0 && !T::may_precede(s.last(), x) ==> placed::<T>(s, x) == placed::<T>(
            s.drop_last(),
            x,
        ).push(s.last()),
{
    if s.len() == 0 || T::may_precede(s.last(), x) {
        assert(slot::<T>(s, x, s.len() as int) == s.len());
        assert(s.insert(s.len() as int, x) == s.push(x));
    } else {
        let rest = s.drop_last();
        lemma_slot_of_prefix::<T>(s, x, s.len() - 1, s.len() - 1);
        lemma_slot_bounds::<T>(rest, x, rest.len() as int);
        let p = slot::<T>(rest, x, rest.len() as int);
        assert(slot::<T>(s, x, s.len() as int) == p);
        assert(s.insert(p, x) == rest.insert(p, x).push(s.last()));
    }
}

/// Placing a value into the run of two sequences is the same as placing it
/// into the second and running the two into one.
pub proof fn lemma_merged_placed<T: Ranked>(a: Seq<T::V>, b: Seq<T::V>, x: T::V)
    ensures
        placed::<T>(merged::<T>(a, b), x) == merged::<T>(a, placed::<T>(b, x)),
    decreases a.len() + b.len(),
{
    lemma_placed_by_last::<T>(b, x);
    lemma_placed_by_last::<T>(merged::<T>(a, b), x);
    let b2 = placed::<T>(b, x);
    if a.len() == 0 {
    } else if b.len() == 0 {
        assert(b2 == seq![x]);
        assert(b2.last() == x && b2.drop_last() == b);
        lemma_placed_by_last::<T>(a, x);
        if !T::may_precede(a.last(), x) {
            lemma_merged_placed::<T>(a.drop_last(), b, x);
            assert(merged::<T>(a.drop_last(), b) == a.drop_last());
        }
    } else if !T::may_precede(b.last(), x) {
        assert(b2 == placed::<T>(b.drop_last(), x).push(b.last()));
        assert(b2.last() == b.last());
        assert(b2.drop_last() == placed::<T>(b.drop_last(), x));
        if T::may_precede(a.last(), b.last()) {
            lemma_merged_placed::<T>(a, b.drop_last(), x);
            lemma_placed_by_last::<T>(merged::<T>(a, b.drop_last()).push(b.last()), x);
            assert(merged::<T>(a, b.drop_last()).push(b.last()).drop_last() == merged::<T>(
                a,
                b.drop_last(),
            ));
        } else {
            lemma_merged_placed::<T>(a.drop_last(), b, x);
            assert(!T::may_precede(a.last(), x)) by {
                if T::may_precede(a.last(), x) {
                    T::lemma_total(b.last(), x);
                    T::lemma_transitive(a.last(), x, b.last());
                }
            }
            lemma_placed_by_last::<T>(merged::<T>(a.drop_last(), b).push(a.last()), x);
            assert(merged::<T>(a.drop_last(), b).push(a.last()).drop_last() == merged::<T>(
                a.drop_last(),
                b,
            ));
        }
    } else {
        assert(b2 == b.push(x));
        assert(b2.last() == x && b2.drop_last() == b);
        if T::may_precede(a.last(), x) {
            assert(T::may_precede(merged::<T>(a, b).last(), x));
        } else {
            lemma_merged_placed::<T>(a.drop_last(), b, x);
            assert(!T::may_precede(a.last(), b.last())) by {
                if T::may_precede(a.last(), b.last()) {
                    T::lemma_transitive(a.last(), b.last(), x);
                }
            }
            lemma_placed_by_last::<T>(merged::<T>(a.drop_last(), b).push(a.last()), x);
            assert(merged::<T>(a.drop_last(), b).push(a.last()).drop_last() == merged::<T>(
                a.drop_last(),
                b,
            ));
        }
    }
}

/// A sequence in ranked order is its two parts in ranked order, run into
/// one.
pub proof fn lemma_ranked_parts<T: Ranked>(x: Seq<T::V>, y: Seq<T::V>)
    ensures
        ranked::<T>(x + y) == merged::<T>(ranked::<T>(x), ranked::<T>(y)),
    decreases y.len(),
{
    if y.len() == 0 {
        assert(x + y == x);
        assert(ranked::<T>(y) == Seq::<T::V>::empty());
    } else {
        let rest = y.drop_last();
        assert((x + y).drop_last() == x + rest);
        assert((x + y).last() == y.last());
        lemma_ranked_parts::<T>(x, rest);
        lemma_merged_placed::<T>(ranked::<T>(x), ranked::<T>(rest), y.last());
    }
}

/// Runs two sequences in ranked order into one.
fn merge<T: Ranked>(a: Vec<T>, b: Vec<T>) -> (r: Vec<T>)
    ensures
        views(r@) == merged::<T>(views(a@), views(b@)),
{
    let ghost whole = merged::<T>(views(a@), views(b@));
    let mut a = a;
    let mut b = b;
    // The members that are settled, the last of the result first.
    let mut settled: Vec<T> = Vec::new();
    let ghost mut tail: Seq<T::V> = Seq::empty();
    assert(merged::<T>(views(a@), views(b@)) + tail == whole);
    while a.len() > 0 && b.len() > 0
        invariant
            merged::<T>(views(a@), views(b@)) + tail == whole,
            settled@.len() == tail.len(),
            forall|i: int| 0 <= i < tail.len() ==> (#[trigger] settled@[i])@ == tail[tail.len() - 1 - i],
        decreases a.len() + b.len(),
    {
        let ghost av = views(a@);
        let ghost bv = views(b@);
        let ghost before = tail;
        assert(av.last() == a@[a@.len() - 1]@ && bv.last() == b@[b@.len() - 1]@);
        let last = if a[a.len() - 1].precedes(&b[b.len() - 1]) {
            let last = b.pop().unwrap();
            assert(views(b@) == bv.drop_last());
            last
        } else {
            let last = a.pop().unwrap();
            assert(views(a@) == av.drop_last());
            last
        };
        proof {
            tail = seq![last@] + before;
            assert(merged::<T>(views(a@), views(b@)).push(last@) + before == merged::<T>(
                views(a@),
                views(b@),
            ) + tail);
        }
        settled.push(last);
        assert forall|i: int| 0 <= i < tail.len() implies (#[trigger] settled@[i])@ == tail[tail.len()
            - 1 - i] by {
            if i < before.len() {
                assert(tail[tail.len() - 1 - i] == before[before.len() - 1 - i]);
            }
        }
    }
    let mut out = if a.len() == 0 {
        b
    } else {
        a
    };
    assert(views(out@) + tail == whole);
    while settled.len() > 0
        invariant
            views(out@) + tail == whole,
            settled@.len() == tail.len(),
            forall|i: int| 0 <= i < tail.len() ==> (#[trigger] settled@[i])@ == tail[tail.len() - 1 - i],
        decreases settled.len(),
    {
        let ghost before = tail;
        let ghost shown = views(out@);
        let next = settled.pop().unwrap();
        assert(next@ == before[0]);
        proof {
            tail = before.drop_first();
        }
        out.push(next);
        assert(views(out@) == shown.push(before[0]));
        assert(shown.push(before[0]) + before.drop_first() == shown + before);
        assert forall|i: int| 0 <= i < tail.len() implies (#[trigger] settled@[i])@ == tail[tail.len()
            - 1 - i] by {
            assert(tail[tail.len() - 1 - i] == before[before.len() - 1 - i]);
        }
    }
    assert(views(out@) + tail == views(out@));
    out
}

/// Puts `v` in ranked order; members that tie keep the order they came in.
///
/// The sequence is halved, each half is put in order, and the halves are
/// run into one.
pub fn rank<T: Ranked>(v: Vec<T>) -> (r: Vec<T>)
    ensures
        views(r@) == ranked::<T>(views(v@)),
    decreases v@.len(),
{
    let n = v.len();
    if n <= 1 {
        proof {
            let s = views(v@);
            if n == 1 {
                assert(ranked::<T>(s.drop_last()) == Seq::<T::V>::empty());
                assert(Seq::<T::V>::empty().insert(0, s.last()) == s);
            } else {
                assert(s == Seq::<T::V>::empty());
            }
        }
        return v;
    }
    let ghost all = views(v@);
    let mut left = v;
    let right = left.split_off(n / 2);
    proof {
        assert(views(left@) + views(right@) == all);
        lemma_ranked_parts::<T>(views(left@), views(right@));
    }
    let a = rank(left);
    let b = rank(right);
    merge(a, b)
}

} // verus!
