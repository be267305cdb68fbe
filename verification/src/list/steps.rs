use vstd::prelude::*;

verus! {

/// What is left of `s` after its front value has been taken off `k` times, one call
/// at a time (each `pop`, `pop_front` or iterator step drops the front).
pub open spec fn after_pops<T>(s: Seq<T>, k: nat) -> Seq<T>
    decreases k,
{
    if k == 0 {
        s
    } else {
        after_pops(s, (k - 1) as nat).drop_first()
    }
}

/// What `s` becomes when the values of `xs` are pushed at its back, one call at a
/// time, first to last.
pub open spec fn after_push_backs<T>(s: Seq<T>, xs: Seq<T>) -> Seq<T>
    decreases xs.len(),
{
    if xs.len() == 0 {
        s
    } else {
        after_push_backs(s, xs.drop_last()).push(xs.last())
    }
}

/// Taking values off the front one at a time gives them in order: after `k` of the
/// calls the rest is `s.skip(k)`, the next call gives `s[k]`, and once all `s.len()`
/// values are gone nothing is left, so every further call gives nothing.
pub proof fn lemma_pops_in_order<T>(s: Seq<T>, k: nat)
    requires
        k <= s.len(),
    ensures
        after_pops(s, k) == s.skip(k as int),
        k < s.len() ==> after_pops(s, k).len() > 0 && after_pops(s, k)[0] == s[k as int],
        k == s.len() ==> after_pops(s, k).len() == 0,
    decreases k,
{
    if k > 0 {
        lemma_pops_in_order(s, (k - 1) as nat);
        assert(s.skip(k - 1).drop_first() =~= s.skip(k as int));
    } else {
        assert(s.skip(0) =~= s);
    }
}

/// Pushing the values of `xs` at the back, one at a time, appends them in order.
pub proof fn lemma_push_backs_append<T>(s: Seq<T>, xs: Seq<T>)
    ensures
        after_push_backs(s, xs) == s + xs,
    decreases xs.len(),
{
    if xs.len() > 0 {
        lemma_push_backs_append(s, xs.drop_last());
        assert((s + xs.drop_last()).push(xs.last()) =~= s + xs);
    } else {
        assert(s + xs =~= s);
    }
}

} // verus!
