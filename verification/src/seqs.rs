//! Small general lemmas about sequences that several modules share.

use vstd::prelude::*;

verus! {

use vstd::seq_lib::*;

/// An element of any member sequence occurs in the flat-mapped sequence.
pub proof fn lemma_flat_map_contains<A, B>(s: Seq<A>, f: spec_fn(A) -> Seq<B>, i: int, j: int)
    requires
        0 <= i < s.len(),
        0 <= j < f(s[i]).len(),
    ensures
        s.flat_map(f).contains(f(s[i])[j]),
    decreases s.len(),
{
    let e = f(s[i])[j];
    let prefix = s.drop_last();
    assert(prefix.push(s.last()) =~= s);
    prefix.lemma_flat_map_push(f, s.last());
    if i == s.len() - 1 {
        let k = prefix.flat_map(f).len() + j;
        assert(s.flat_map(f)[k as int] == e);
    } else {
        lemma_flat_map_contains(prefix, f, i, j);
        let k = choose|k: int|
            0 <= k < prefix.flat_map(f).len() && prefix.flat_map(f)[k] == e;
        assert(s.flat_map(f)[k] == e);
    }
}

/// When every member sequence is bounded, the flat-mapped length is
/// bounded by count times bound.
pub proof fn lemma_flat_map_len_bound<A, B>(s: Seq<A>, f: spec_fn(A) -> Seq<B>, c: int)
    requires
        forall|i: int| 0 <= i < s.len() ==> (#[trigger] f(s[i])).len() <= c,
        c >= 0,
    ensures
        s.flat_map(f).len() <= s.len() * c,
    decreases s.len(),
{
    if s.len() == 0 {
        assert(s.flat_map(f) =~= Seq::<B>::empty());
    } else {
        let prefix = s.drop_last();
        assert(prefix.push(s.last()) =~= s);
        prefix.lemma_flat_map_push(f, s.last());
        assert(forall|i: int|
            0 <= i < prefix.len() ==> prefix[i] == #[trigger] s[i]);
        lemma_flat_map_len_bound(prefix, f, c);
        assert(f(s[s.len() - 1]).len() <= c);
        assert(s.len() * c == (s.len() - 1) * c + c) by (nonlinear_arith);
    }
}


/// Two duplicate-free sequences that contain each other's elements have
/// the same length.
pub proof fn lemma_mutual_containment_same_len<A>(a: Seq<A>, b: Seq<A>)
    requires
        a.no_duplicates(),
        b.no_duplicates(),
        forall|i: int| 0 <= i < a.len() ==> b.contains(#[trigger] a[i]),
        forall|j: int| 0 <= j < b.len() ==> a.contains(#[trigger] b[j]),
    ensures
        a.len() == b.len(),
{
    a.unique_seq_to_set();
    b.unique_seq_to_set();
    assert(a.to_set() =~= b.to_set());
}


/// Flat-mapping members of one common length `c` gives a sequence of
/// `s.len() * c` elements, the k-th being element `k % c` of member
/// `k / c`.
pub proof fn lemma_flat_map_uniform<A, B>(s: Seq<A>, f: spec_fn(A) -> Seq<B>, c: int)
    requires
        c >= 1,
        forall|i: int| 0 <= i < s.len() ==> (#[trigger] f(s[i])).len() == c,
    ensures
        s.flat_map(f).len() == s.len() * c,
        forall|k: int|
            0 <= k < s.len() * c ==> #[trigger] s.flat_map(f)[k] == f(s[k / c])[k % c],
    decreases s.len(),
{
    if s.len() == 0 {
        assert(s.flat_map(f) =~= Seq::<B>::empty());
    } else {
        let prefix = s.drop_last();
        assert(prefix.push(s.last()) =~= s);
        prefix.lemma_flat_map_push(f, s.last());
        assert(forall|i: int| 0 <= i < prefix.len() ==> prefix[i] == #[trigger] s[i]);
        lemma_flat_map_uniform(prefix, f, c);
        let n = s.len();
        assert((n - 1) * c + c == n * c) by (nonlinear_arith);
        assert forall|k: int|
            0 <= k < s.len() * c implies #[trigger] s.flat_map(f)[k] == f(s[k / c])[k % c] by {
            vstd::arithmetic::div_mod::lemma_fundamental_div_mod(k, c);
            vstd::arithmetic::div_mod::lemma_mod_bound(k, c);
            if k < (n - 1) * c {
                assert(s.flat_map(f)[k] == prefix.flat_map(f)[k]);
                assert(prefix.flat_map(f)[k] == f(prefix[k / c])[k % c]);
                assert(k / c < n - 1 && k / c >= 0) by (nonlinear_arith)
                    requires
                        k == c * (k / c) + k % c,
                        0 <= k % c < c,
                        0 <= k < (n - 1) * c,
                        c >= 1,
                ;
            } else {
                assert(s.flat_map(f)[k] == f(s.last())[k - (n - 1) * c]);
                assert(k / c == n - 1 && k % c == k - (n - 1) * c) by (nonlinear_arith)
                    requires
                        k == c * (k / c) + k % c,
                        0 <= k % c < c,
                        (n - 1) * c <= k < n * c,
                        c >= 1,
                ;
            }
        }
    }
}


} // verus!
