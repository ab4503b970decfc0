//! A stable sort over values that come in a total preorder, and its laws.
//!
//! The sort is stated as a function on sequences, `stable_sort`, so that a
//! caller can say exactly what a sorted vector holds. The laws below show
//! that the function deserves its name: its result ascends, holds the same
//! items as its input, and keeps tied items in the order they came in.

use vstd::prelude::*;

verus! {

/// Values that can be ranked. `ranks_before` must be a total preorder; the
/// two proof methods are the evidence.
pub trait Ranked: Sized {
    /// `self` ranks no later than `other`.
    spec fn ranks_before(&self, other: &Self) -> bool;

    /// Decides `ranks_before`.
    fn precedes(&self, other: &Self) -> (r: bool)
        ensures
            r == self.ranks_before(other),
    ;

    /// Any two values compare one way or the other.
    proof fn total(a: &Self, b: &Self)
        ensures
            a.ranks_before(b) || b.ranks_before(a),
    ;

    /// The comparison is transitive.
    proof fn transitive(a: &Self, b: &Self, c: &Self)
        requires
            a.ranks_before(b),
            b.ranks_before(c),
        ensures
            a.ranks_before(c),
    ;
}

/// Two values rank the same.
pub open spec fn ties<T: Ranked>(a: T, b: T) -> bool {
    a.ranks_before(&b) && b.ranks_before(&a)
}

/// Every item ranks no later than the items behind it.
pub open spec fn ascending<T: Ranked>(s: Seq<T>) -> bool {
    forall|i: int, j: int| 0 <= i < j < s.len() ==> #[trigger] s[i].ranks_before(&s[j])
}

/// `x` put into `s` behind the last item that ranks no later than `x`.
pub open spec fn insert_ranked<T: Ranked>(s: Seq<T>, x: T) -> Seq<T>
    decreases s.len(),
{
    if s.len() == 0 {
        seq![x]
    } else if s.last().ranks_before(&x) {
        s.push(x)
    } else {
        insert_ranked(s.drop_last(), x).push(s.last())
    }
}

/// The items of `s` in ascending rank, tied items in their order in `s`.
pub open spec fn stable_sort<T: Ranked>(s: Seq<T>) -> Seq<T>
    decreases s.len(),
{
    if s.len() == 0 {
        Seq::empty()
    } else {
        insert_ranked(stable_sort(s.drop_last()), s.last())
    }
}

/// Where `insert_ranked` puts `x`: at any position `p` whose left neighbour
/// ranks no later than `x` and from which on every item ranks strictly later.
pub proof fn lemma_insert_position<T: Ranked>(s: Seq<T>, x: T, p: int)
    requires
        0 <= p <= s.len(),
        p > 0 ==> s[p - 1].ranks_before(&x),
        forall|j: int| p <= j < s.len() ==> !(#[trigger] s[j]).ranks_before(&x),
    ensures
        insert_ranked(s, x) == s.insert(p, x),
    decreases s.len(),
{
    if s.len() == 0 {
        assert(s.insert(p, x) =~= seq![x]);
    } else if p == s.len() {
        assert(s.insert(p, x) =~= s.push(x));
    } else {
        assert(!s[s.len() - 1].ranks_before(&x));
        lemma_insert_position(s.drop_last(), x, p);
        assert(s.drop_last().insert(p, x).push(s.last()) =~= s.insert(p, x));
    }
}

/// Inserting keeps the length in step.
pub proof fn lemma_insert_len<T: Ranked>(s: Seq<T>, x: T)
    ensures
        insert_ranked(s, x).len() == s.len() + 1,
    decreases s.len(),
{
    if s.len() > 0 && !s.last().ranks_before(&x) {
        lemma_insert_len(s.drop_last(), x);
    }
}

/// Every item of `insert_ranked(s, x)` is `x` or an item of `s`.
proof fn lemma_insert_members<T: Ranked>(s: Seq<T>, x: T, i: int)
    requires
        0 <= i < insert_ranked(s, x).len(),
    ensures
        insert_ranked(s, x)[i] == x || s.contains(insert_ranked(s, x)[i]),
    decreases s.len(),
{
    if s.len() == 0 {
    } else if s.last().ranks_before(&x) {
        if i < s.len() {
            assert(s[i] == insert_ranked(s, x)[i]);
        }
    } else {
        lemma_insert_len(s.drop_last(), x);
        if i < s.len() {
            lemma_insert_members(s.drop_last(), x, i);
            let y = insert_ranked(s.drop_last(), x)[i];
            if y != x {
                let k = choose|k: int| 0 <= k < s.drop_last().len() && s.drop_last()[k] == y;
                assert(s[k] == y);
            }
        } else {
            assert(s[s.len() - 1] == insert_ranked(s, x)[i]);
        }
    }
}

/// Inserting into an ascending sequence leaves it ascending.
pub proof fn lemma_insert_ascending<T: Ranked>(s: Seq<T>, x: T)
    requires
        ascending(s),
    ensures
        ascending(insert_ranked(s, x)),
    decreases s.len(),
{
    let r = insert_ranked(s, x);
    if s.len() == 0 {
    } else if s.last().ranks_before(&x) {
        assert forall|i: int, j: int| 0 <= i < j < r.len() implies #[trigger] r[i].ranks_before(&r[j]) by {
            if j == s.len() {
                if i < s.len() - 1 {
                    assert(s[i].ranks_before(&s[s.len() - 1]));
                    T::transitive(&s[i], &s.last(), &x);
                }
            } else {
                assert(s[i].ranks_before(&s[j]));
            }
        }
    } else {
        let init = s.drop_last();
        assert(ascending(init)) by {
            assert forall|i: int, j: int| 0 <= i < j < init.len() implies #[trigger] init[i]
                .ranks_before(&init[j]) by {
                assert(s[i].ranks_before(&s[j]));
            }
        }
        lemma_insert_ascending(init, x);
        lemma_insert_len(init, x);
        let q = insert_ranked(init, x);
        T::total(&s.last(), &x);
        assert forall|i: int, j: int| 0 <= i < j < r.len() implies #[trigger] r[i].ranks_before(&r[j]) by {
            if j == q.len() {
                lemma_insert_members(init, x, i);
                if q[i] != x {
                    let k = choose|k: int| 0 <= k < init.len() && init[k] == q[i];
                    assert(s[k].ranks_before(&s[s.len() - 1]));
                }
            } else {
                assert(q[i].ranks_before(&q[j]));
            }
        }
    }
}

/// Seen through any class of tied values, inserting is appending.
pub proof fn lemma_insert_keeps_ties<T: Ranked>(s: Seq<T>, x: T, z: T)
    ensures
        insert_ranked(s, x).filter(|y: T| ties(z, y)) == s.push(x).filter(|y: T| ties(z, y)),
    decreases s.len(),
{
    let class = |y: T| ties(z, y);
    if s.len() == 0 {
        assert(s.push(x) =~= seq![x]);
    } else if s.last().ranks_before(&x) {
    } else {
        let init = s.drop_last();
        lemma_insert_keeps_ties(init, x, z);
        init.lemma_filter_push(x, class);
        insert_ranked(init, x).lemma_filter_push(s.last(), class);
        s.lemma_filter_push(x, class);
        assert(init.push(s.last()) =~= s);
        init.lemma_filter_push(s.last(), class);
        if class(x) && class(s.last()) {
            T::transitive(&s.last(), &z, &x);
        }
    }
}

/// The sorted sequence is as long as its input.
pub proof fn lemma_sort_len<T: Ranked>(s: Seq<T>)
    ensures
        stable_sort(s).len() == s.len(),
    decreases s.len(),
{
    if s.len() > 0 {
        lemma_sort_len(s.drop_last());
        lemma_insert_len(stable_sort(s.drop_last()), s.last());
    }
}

/// The sorted sequence ascends.
pub proof fn lemma_sort_ascending<T: Ranked>(s: Seq<T>)
    ensures
        ascending(stable_sort(s)),
    decreases s.len(),
{
    if s.len() > 0 {
        lemma_sort_ascending(s.drop_last());
        lemma_insert_ascending(stable_sort(s.drop_last()), s.last());
    }
}

/// The sorted sequence holds each item as often as the input does.
pub proof fn lemma_sort_permutes<T: Ranked>(s: Seq<T>)
    ensures
        stable_sort(s).to_multiset() == s.to_multiset(),
    decreases s.len(),
{
    broadcast use {
        vstd::seq_lib::to_multiset_build,
        vstd::seq_lib::to_multiset_insert,
        vstd::multiset::group_multiset_axioms,
    };

    if s.len() == 0 {
        assert(stable_sort(s) =~= s);
    } else {
        let init = s.drop_last();
        let sorted = stable_sort(init);
        lemma_sort_permutes(init);
        lemma_sort_len(init);
        lemma_insert_len(sorted, s.last());
        let p = insertion_point(sorted, s.last());
        lemma_insertion_point(sorted, s.last());
        lemma_insert_position(sorted, s.last(), p);
        assert(init.push(s.last()) =~= s);
        assert(sorted.insert(p, s.last()).to_multiset() =~= s.to_multiset());
    }
}

/// Every item of the sorted sequence is an item of the input.
pub proof fn lemma_sort_members<T: Ranked>(s: Seq<T>, i: int) -> (j: int)
    requires
        0 <= i < stable_sort(s).len(),
    ensures
        0 <= j < s.len(),
        s[j] == stable_sort(s)[i],
{
    let sorted = stable_sort(s);
    lemma_sort_permutes(s);
    vstd::seq_lib::to_multiset_contains(sorted, sorted[i]);
    vstd::seq_lib::to_multiset_contains(s, sorted[i]);
    assert(sorted.contains(sorted[i]));
    choose|j: int| 0 <= j < s.len() && s[j] == sorted[i]
}

/// Sorting is stable: the items that tie with any `z` stand in the result
/// in the order in which they stand in the input.
pub proof fn lemma_sort_stable<T: Ranked>(s: Seq<T>, z: T)
    ensures
        stable_sort(s).filter(|y: T| ties(z, y)) == s.filter(|y: T| ties(z, y)),
    decreases s.len(),
{
    let class = |y: T| ties(z, y);
    if s.len() == 0 {
        assert(stable_sort(s) =~= s);
    } else {
        let init = s.drop_last();
        lemma_sort_stable(init, z);
        lemma_insert_keeps_ties(stable_sort(init), s.last(), z);
        stable_sort(init).lemma_filter_push(s.last(), class);
        init.lemma_filter_push(s.last(), class);
        assert(init.push(s.last()) =~= s);
    }
}

/// An ascending sequence is its own sort.
pub proof fn lemma_sort_of_ascending<T: Ranked>(s: Seq<T>)
    requires
        ascending(s),
    ensures
        stable_sort(s) == s,
    decreases s.len(),
{
    if s.len() == 0 {
        assert(stable_sort(s) =~= s);
    } else {
        let init = s.drop_last();
        assert(ascending(init)) by {
            assert forall|i: int, j: int| 0 <= i < j < init.len() implies #[trigger] init[i]
                .ranks_before(&init[j]) by {
                assert(s[i].ranks_before(&s[j]));
            }
        }
        lemma_sort_of_ascending(init);
        if init.len() > 0 {
            assert(s[init.len() - 1].ranks_before(&s[s.len() - 1]));
        }
        assert(init.push(s.last()) =~= s);
    }
}

/// The position at which `insert_ranked` places `x`.
pub open spec fn insertion_point<T: Ranked>(s: Seq<T>, x: T) -> int
    decreases s.len(),
{
    if s.len() == 0 || s.last().ranks_before(&x) {
        s.len() as int
    } else {
        insertion_point(s.drop_last(), x)
    }
}

/// `insertion_point` meets what `lemma_insert_position` asks for.
pub proof fn lemma_insertion_point<T: Ranked>(s: Seq<T>, x: T)
    ensures
        0 <= insertion_point(s, x) <= s.len(),
        insertion_point(s, x) > 0 ==> s[insertion_point(s, x) - 1].ranks_before(&x),
        forall|j: int|
            insertion_point(s, x) <= j < s.len() ==> !(#[trigger] s[j]).ranks_before(&x),
    decreases s.len(),
{
    if s.len() == 0 || s.last().ranks_before(&x) {
    } else {
        let init = s.drop_last();
        lemma_insertion_point(init, x);
        assert forall|j: int| insertion_point(s, x) <= j < s.len() implies !(#[trigger] s[j]).ranks_before(
            &x,
        ) by {
            if j < init.len() {
                assert(init[j] == s[j]);
            }
        }
    }
}

/// Sorts `v` in place by rank, keeping tied items in their order.
pub fn sort_ranked<T: Ranked>(v: &mut Vec<T>)
    ensures
        final(v)@ == stable_sort(old(v)@),
{
    let n = v.len();
    let mut i: usize = 0;
    proof {
        assert(v@.take(0) =~= stable_sort(old(v)@.take(0)));
    }
    while i < n
        invariant
            n == v.len(),
            n == old(v)@.len(),
            i <= n,
            v@.take(i as int) == stable_sort(old(v)@.take(i as int)),
            v@.skip(i as int) == old(v)@.skip(i as int),
        decreases n - i,
    {
        let ghost before = v@;
        let ghost sorted = v@.take(i as int);
        assert(v@[i as int] == v@.skip(i as int)[0]);
        let x = v.remove(i);
        let mut p: usize = i;
        while p > 0 && !v[p - 1].precedes(&x)
            invariant
                p <= i,
                i < n,
                v@ == before.remove(i as int),
                before.len() == n,
                sorted == before.take(i as int),
                forall|j: int| p <= j < i ==> !(#[trigger] sorted[j]).ranks_before(&x),
            decreases p,
        {
            assert(v@[p - 1] == sorted[p - 1]);
            p = p - 1;
        }
        proof {
            if p > 0 {
                assert(v@[p - 1] == sorted[p - 1]);
            }
            lemma_insert_position(sorted, x, p as int);
            let prefix = old(v)@.take(i + 1);
            assert(prefix.drop_last() =~= old(v)@.take(i as int));
            assert(prefix.last() == old(v)@.skip(i as int)[0]);
        }
        v.insert(p, x);
        proof {
            assert(v@.take(i + 1) =~= sorted.insert(p as int, x));
            assert(v@.skip(i + 1) =~= old(v)@.skip(i + 1)) by {
                assert forall|j: int| 0 <= j < n - i - 1 implies #[trigger] v@.skip(i + 1)[j]
                    == old(v)@.skip(i + 1)[j] by {
                    assert(v@.skip(i + 1)[j] == before.skip(i as int)[j + 1]);
                }
            }
        }
        i = i + 1;
    }
    proof {
        assert(v@.take(n as int) =~= v@);
        assert(old(v)@.take(n as int) =~= old(v)@);
    }
}

} // verus!
