//! Searches that ask a store one question at a time and stop at the first
//! yes.  What the store answers is not known here; what is known is the
//! order of the questions and what is done with the first yes.
use vstd::prelude::*;

verus! {

/// Index of the first `true` in `ans`, if any.
pub open spec fn spec_first_hit(ans: Seq<bool>) -> Option<int>
    decreases ans.len(),
{
    if ans.len() == 0 {
        None
    } else {
        match spec_first_hit(ans.drop_last()) {
            Some(i) => Some(i),
            None => if ans.last() {
                Some(ans.len() - 1)
            } else {
                None
            },
        }
    }
}

/// `ans` are the answers to the first questions of a list of `total`, asked
/// in order: every answer but the last is no, and the asking stopped early
/// only at a yes.
pub open spec fn stops_at_first_hit(ans: Seq<bool>, total: nat) -> bool {
    &&& ans.len() <= total
    &&& forall|i: int| 0 <= i && i + 1 < ans.len() ==> !#[trigger] ans[i]
    &&& ans.len() < total ==> ans.len() > 0 && ans.last()
}

/// With no yes among them, the answers have no first hit.
proof fn lemma_no_hit(ans: Seq<bool>)
    requires
        forall|i: int| 0 <= i < ans.len() ==> !#[trigger] ans[i],
    ensures
        spec_first_hit(ans) is None,
    decreases ans.len(),
{
    if ans.len() > 0 {
        assert forall|i: int| 0 <= i < ans.drop_last().len() implies !#[trigger] ans.drop_last()[i] by {
            assert(ans.drop_last()[i] == ans[i]);
        }
        lemma_no_hit(ans.drop_last());
    }
}

/// Answers that stop at their first yes have it last.
pub proof fn lemma_first_hit_last(ans: Seq<bool>, total: nat)
    requires
        stops_at_first_hit(ans, total),
    ensures
        spec_first_hit(ans) == (if ans.len() > 0 && ans.last() { Some(ans.len() - 1) } else { None::<int> }),
{
    if ans.len() > 0 {
        let p = ans.drop_last();
        assert forall|i: int| 0 <= i < p.len() implies !#[trigger] p[i] by {
            assert(p[i] == ans[i]);
        }
        lemma_no_hit(p);
    }
}

/// Index of the first `true` in `ans`, if any.
pub fn first_hit(ans: &[bool]) -> (r: Option<usize>)
    ensures
        r is None <==> spec_first_hit(ans@) is None,
        r matches Some(i) ==> spec_first_hit(ans@) == Some(i as int),
{
    let mut i: usize = 0;
    while i < ans.len()
        invariant
            i <= ans@.len(),
            spec_first_hit(ans@.take(i as int)) is None,
        decreases ans@.len() - i,
    {
        proof {
            assert(ans@.take(i + 1).drop_last() =~= ans@.take(i as int));
        }
        if ans[i] {
            proof {
                lemma_first_hit_prefix(ans@, i as int + 1);
            }
            return Some(i);
        }
        i += 1;
    }
    proof {
        assert(ans@.take(i as int) =~= ans@);
    }
    None
}

/// A first hit within a prefix is the first hit of the whole.
proof fn lemma_first_hit_prefix(ans: Seq<bool>, k: int)
    requires
        0 <= k <= ans.len(),
        spec_first_hit(ans.take(k)) is Some,
    ensures
        spec_first_hit(ans) == spec_first_hit(ans.take(k)),
    decreases ans.len() - k,
{
    if k < ans.len() {
        assert(ans.take(k + 1).drop_last() =~= ans.take(k));
        lemma_first_hit_prefix(ans, k + 1);
    } else {
        assert(ans.take(k) =~= ans);
    }
}

/// The windows of `len` gates that start at `0`, `1`, ... : `(l, start)`.
pub open spec fn window_starts(len: usize, l: usize) -> Seq<(usize, usize)> {
    Seq::new((len - l + 1) as nat, |s: int| (l, s as usize))
}

/// Windows of lengths `l` down to 5, leftmost first, as `(length, start)`.
pub open spec fn window_order(len: usize, l: usize) -> Seq<(usize, usize)>
    decreases l,
{
    if l < 5 || l > len {
        Seq::empty()
    } else {
        window_starts(len, l) + window_order(len, (l - 1) as usize)
    }
}

/// The longest window searched: `max_len` capped by the circuit length.
pub open spec fn search_cap(len: usize, max_len: usize) -> usize {
    if max_len < len {
        max_len
    } else {
        len
    }
}

/// `old` with the window at `order[i]` removed, for the hit `i`; `old` itself
/// without a hit.
pub open spec fn apply_window_hit(old: Seq<[u8; 3]>, order: Seq<(usize, usize)>, hit: Option<int>) -> Seq<
    [u8; 3],
> {
    match hit {
        Some(i) => old.take(order[i].1 as int) + old.skip(order[i].1 + order[i].0),
        None => old,
    }
}

/// Every window of the order fits in `len` gates and is 5 to `l` long.
pub proof fn lemma_window_order_bounds(len: usize, l: usize)
    ensures
        forall|k: int| 0 <= k < window_order(len, l).len() ==> 5 <= (#[trigger] window_order(len, l)[k]).0 <= l
            && window_order(len, l)[k].1 + window_order(len, l)[k].0 <= len,
    decreases l,
{
    if l >= 5 && l <= len {
        lemma_window_order_bounds(len, (l - 1) as usize);
        let a = window_starts(len, l);
        let b = window_order(len, (l - 1) as usize);
        assert forall|k: int| 0 <= k < window_order(len, l).len() implies 5 <= (#[trigger] window_order(len, l)[k]).0 <= l
            && window_order(len, l)[k].1 + window_order(len, l)[k].0 <= len by {
            if k < a.len() {
                assert(window_order(len, l)[k] == a[k]);
            } else {
                assert(window_order(len, l)[k] == b[k - a.len()]);
            }
        }
    }
}

} // verus!
