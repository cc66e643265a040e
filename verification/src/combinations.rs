//! Choosing `k` of `n` indices, in lexicographic order.
use vstd::prelude::*;

verus! {

/// The strictly increasing sequences of `k` indices drawn from `lo..total`,
/// in lexicographic order.
pub open spec fn combos(lo: nat, total: nat, k: nat) -> Seq<Seq<usize>>
    decreases total - lo, k,
{
    if k == 0 {
        seq![Seq::empty()]
    } else if lo >= total {
        Seq::empty()
    } else {
        combos(lo + 1, total, (k - 1) as nat).map_values(|c: Seq<usize>| seq![lo as usize] + c)
            + combos(lo + 1, total, k)
    }
}

/// `s` is strictly increasing and all its elements lie in `lo..total`.
pub open spec fn increasing_within(s: Seq<usize>, lo: nat, total: nat) -> bool {
    &&& forall|i: int| 0 <= i < s.len() ==> lo <= #[trigger] s[i] < total
    &&& forall|i: int, j: int| 0 <= i < j < s.len() ==> s[i] < s[j]
}

/// Prefixing every element of `cs` with `prefix`.
pub open spec fn prefixed(prefix: Seq<usize>, cs: Seq<Seq<usize>>) -> Seq<Seq<usize>> {
    cs.map_values(|c: Seq<usize>| prefix + c)
}

/// Writes to `out`, after what it holds, `current` followed by each element
/// of `combos(start, total, choose - current.len())`.
fn walk(
    start: usize,
    total: usize,
    choose: usize,
    current: &mut Vec<usize>,
    out: &mut Vec<Vec<usize>>,
)
    requires
        old(current)@.len() <= choose,
        start <= total,
    ensures
        final(current)@ == old(current)@,
        final(out).deep_view() == old(out).deep_view() + prefixed(
            old(current)@,
            combos(start as nat, total as nat, (choose - old(current)@.len()) as nat),
        ),
    decreases total - start, 1nat,
{
    if current.len() == choose {
        let c = current.clone();
        assert(c@ =~= current@);
        assert(c.deep_view() =~= current@);
        let ghost out_before = out.deep_view();
        out.push(c);
        proof {
            assert(out.deep_view().len() == out_before.len() + 1);
            assert forall|i: int| 0 <= i < out_before.len() implies out.deep_view()[i] == out_before[i] by {
                assert(out@[i] == old(out)@[i]);
            }
            assert(out.deep_view()[out_before.len() as int] == current@);
            assert(prefixed(current@, seq![Seq::empty()]) =~= seq![current@]);
            assert(out.deep_view() =~= old(out).deep_view().push(current@));
        }
        return;
    }
    walk_from(start, total, choose, current, out);
}

/// Writes to `out`, after what it holds, `current` followed by each element
/// of `combos(idx, total, choose - current.len())`, where `current` is
/// shorter than `choose`.
fn walk_from(
    idx: usize,
    total: usize,
    choose: usize,
    current: &mut Vec<usize>,
    out: &mut Vec<Vec<usize>>,
)
    requires
        old(current)@.len() < choose,
        idx <= total,
    ensures
        final(current)@ == old(current)@,
        final(out).deep_view() == old(out).deep_view() + prefixed(
            old(current)@,
            combos(idx as nat, total as nat, (choose - old(current)@.len()) as nat),
        ),
    decreases total - idx, 0nat,
{
    let ghost k: nat = (choose - current@.len()) as nat;
    let ghost cur0 = current@;
    let ghost out0 = out.deep_view();
    if idx >= total {
        assert(combos(idx as nat, total as nat, k) =~= Seq::<Seq<usize>>::empty());
        assert(out.deep_view() =~= out0 + prefixed(cur0, Seq::<Seq<usize>>::empty()));
        return;
    }
    current.push(idx);
    walk(idx + 1, total, choose, current, out);
    current.pop();
    assert(current@ =~= cur0);
    walk_from(idx + 1, total, choose, current, out);
    proof {
        let first = combos((idx + 1) as nat, total as nat, (k - 1) as nat);
        let rest = combos((idx + 1) as nat, total as nat, k);
        assert(combos(idx as nat, total as nat, k) == first.map_values(
            |c: Seq<usize>| seq![idx as usize] + c,
        ) + rest);
        assert(cur0.push(idx) =~= cur0 + seq![idx]);
        let a = prefixed(cur0.push(idx), first);
        let b = prefixed(cur0, first.map_values(|c: Seq<usize>| seq![idx as usize] + c));
        assert forall|i: int| 0 <= i < a.len() implies a[i] == b[i] by {
            assert(cur0.push(idx) + first[i] =~= cur0 + (seq![idx as usize] + first[i]));
        }
        assert(a =~= b);
        let whole = prefixed(cur0, combos(idx as nat, total as nat, k));
        assert(whole =~= b + prefixed(cur0, rest));
        assert(out.deep_view() =~= out0 + whole);
    }
}

/// All strictly increasing sequences of `choose` indices below `total`, in
/// lexicographic order.
pub fn combinations(total: usize, choose: usize) -> (r: Vec<Vec<usize>>)
    ensures
        r.deep_view() == combos(0, total as nat, choose as nat),
{
    let mut out: Vec<Vec<usize>> = Vec::new();
    let mut current: Vec<usize> = Vec::new();
    walk(0, total, choose, &mut current, &mut out);
    proof {
        let cs = combos(0, total as nat, choose as nat);
        assert forall|i: int| 0 <= i < cs.len() implies prefixed(Seq::empty(), cs)[i] == cs[i] by {
            assert(Seq::<usize>::empty() + cs[i] =~= cs[i]);
        }
        assert(prefixed(Seq::empty(), cs) =~= cs);
        assert(out.deep_view() =~= cs);
    }
    out
}

/// Every sequence that `combos(lo, total, k)` lists has `k` strictly
/// increasing elements, all in `lo..total`.
pub proof fn lemma_combos_sound(lo: nat, total: nat, k: nat)
    requires
        total <= usize::MAX,
    ensures
        forall|i: int|
            0 <= i < combos(lo, total, k).len() ==> {
                let c = #[trigger] combos(lo, total, k)[i];
                c.len() == k && increasing_within(c, lo, total)
            },
    decreases total - lo, k,
{
    if k > 0 && lo < total {
        lemma_combos_sound(lo + 1, total, (k - 1) as nat);
        lemma_combos_sound(lo + 1, total, k);
        let first = combos(lo + 1, total, (k - 1) as nat);
        let rest = combos(lo + 1, total, k);
        let mapped = first.map_values(|c: Seq<usize>| seq![lo as usize] + c);
        assert(combos(lo, total, k) == mapped + rest);
        assert forall|i: int| 0 <= i < combos(lo, total, k).len() implies {
            let c = #[trigger] combos(lo, total, k)[i];
            c.len() == k && increasing_within(c, lo, total)
        } by {
            if i < mapped.len() {
                let c0 = first[i];
                assert(c0.len() == k - 1 && increasing_within(c0, lo + 1, total));
                let c = seq![lo as usize] + c0;
                assert(combos(lo, total, k)[i] == c);
                assert forall|a: int, b: int| 0 <= a < b < c.len() implies c[a] < c[b] by {
                    if a > 0 {
                        assert(c[a] == c0[a - 1] && c[b] == c0[b - 1]);
                    } else {
                        assert(c[b] == c0[b - 1]);
                    }
                }
                assert forall|a: int| 0 <= a < c.len() implies lo <= #[trigger] c[a] < total by {
                    if a > 0 {
                        assert(c[a] == c0[a - 1]);
                    }
                }
            } else {
                assert(combos(lo, total, k)[i] == rest[i - mapped.len()]);
            }
        }
    }
}

/// Every strictly increasing sequence of `k` indices in `lo..total` is
/// listed by `combos(lo, total, k)`.
pub proof fn lemma_combos_complete(lo: nat, total: nat, k: nat, s: Seq<usize>)
    requires
        s.len() == k,
        increasing_within(s, lo, total),
    ensures
        combos(lo, total, k).contains(s),
    decreases total - lo, k,
{
    if k == 0 {
        assert(s =~= Seq::<usize>::empty());
        assert(combos(lo, total, k)[0] == s);
    } else {
        assert(lo <= s[0] < total);
        let first = combos(lo + 1, total, (k - 1) as nat);
        let rest = combos(lo + 1, total, k);
        let mapped = first.map_values(|c: Seq<usize>| seq![lo as usize] + c);
        assert(combos(lo, total, k) == mapped + rest);
        if s[0] == lo {
            let t = s.drop_first();
            assert forall|a: int| 0 <= a < t.len() implies lo + 1 <= #[trigger] t[a] < total by {
                assert(s[0] < s[a + 1]);
            }
            lemma_combos_complete(lo + 1, total, (k - 1) as nat, t);
            let idx = choose|idx: int| 0 <= idx < first.len() && first[idx] == t;
            assert(seq![lo as usize] + t =~= s);
            assert((mapped + rest)[idx] == s);
        } else {
            assert forall|a: int| 0 <= a < s.len() implies lo + 1 <= #[trigger] s[a] < total by {
                if a > 0 {
                    assert(s[0] < s[a]);
                }
            }
            lemma_combos_complete(lo + 1, total, k, s);
            let idx = choose|idx: int| 0 <= idx < rest.len() && rest[idx] == s;
            assert((mapped + rest)[mapped.len() + idx] == s);
        }
    }
}

} // verus!
