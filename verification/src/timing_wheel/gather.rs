//! The items of a row of buckets taken together, as a multiset.

use vstd::prelude::*;
use vstd::multiset::Multiset;

verus! {

/// Everything that the first `n` buckets hold.
pub open spec fn gathered<A>(buckets: spec_fn(int) -> Seq<A>, n: nat) -> Multiset<A>
    decreases n,
{
    if n == 0 {
        Multiset::empty()
    } else {
        gathered(buckets, (n - 1) as nat).add(buckets(n - 1).to_multiset())
    }
}

/// Two rows that differ in the bucket `at` alone hold the same once each is
/// given what the other has there.
pub proof fn lemma_gathered_update<A>(
    before: spec_fn(int) -> Seq<A>,
    after: spec_fn(int) -> Seq<A>,
    at: int,
    n: nat,
)
    requires
        forall|k: int| 0 <= k < n && k != at ==> (#[trigger] before(k)) == after(k),
    ensures
        0 <= at < n ==> gathered(after, n).add(before(at).to_multiset()) =~= gathered(
            before,
            n,
        ).add(after(at).to_multiset()),
        !(0 <= at < n) ==> gathered(after, n) =~= gathered(before, n),
    decreases n,
{
    if n > 0 {
        let m = (n - 1) as nat;
        lemma_gathered_update(before, after, at, m);
        if at != m {
            assert(before(m as int) == after(m as int));
        }
        if 0 <= at < n {
            let left = gathered(after, n).add(before(at).to_multiset());
            let right = gathered(before, n).add(after(at).to_multiset());
            assert forall|x: A| left.count(x) == right.count(x) by {
                if at < m {
                    let l = gathered(after, m).add(before(at).to_multiset());
                    let r = gathered(before, m).add(after(at).to_multiset());
                    assert(l.count(x) == r.count(x));
                }
            }
        }
    }
}

/// What the row holds lies in one of its buckets.
pub proof fn lemma_gathered_member<A>(buckets: spec_fn(int) -> Seq<A>, n: nat, x: A)
    requires
        gathered(buckets, n).count(x) > 0,
    ensures
        exists|k: int| 0 <= k < n && (#[trigger] buckets(k)).contains(x),
    decreases n,
{
    if n > 0 {
        if buckets(n - 1).to_multiset().count(x) > 0 {
            buckets(n - 1).to_multiset_ensures();
            assert(buckets(n - 1).contains(x));
        } else {
            lemma_gathered_member(buckets, (n - 1) as nat, x);
        }
    }
}

/// What a bucket holds, the row holds.
pub proof fn lemma_gathered_contains<A>(buckets: spec_fn(int) -> Seq<A>, n: nat, k: int, x: A)
    requires
        0 <= k < n,
    ensures
        buckets(k).to_multiset().count(x) <= gathered(buckets, n).count(x),
    decreases n,
{
    if k < n - 1 {
        lemma_gathered_contains(buckets, (n - 1) as nat, k, x);
    }
}

/// A row of empty buckets holds nothing.
pub proof fn lemma_gathered_empty<A>(buckets: spec_fn(int) -> Seq<A>, n: nat)
    requires
        forall|k: int| 0 <= k < n ==> (#[trigger] buckets(k)).len() == 0,
    ensures
        gathered(buckets, n) =~= Multiset::empty(),
{
    assert forall|x: A| gathered(buckets, n).count(x) == 0 by {
        if gathered(buckets, n).count(x) > 0 {
            lemma_gathered_member(buckets, n, x);
        }
    }
}

} // verus!
