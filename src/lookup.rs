use vstd::prelude::*;

use crate::key::{keys_view, KeyView, ServiceKey};

verus! {

/// Positions at or after `from` whose key is `k`, in increasing order.
pub open spec fn positions_from(keys: Seq<KeyView>, k: KeyView, from: nat) -> Seq<nat>
    decreases keys.len() - from,
{
    if from >= keys.len() {
        Seq::empty()
    } else if keys[from as int] == k {
        seq![from] + positions_from(keys, k, from + 1)
    } else {
        positions_from(keys, k, from + 1)
    }
}

/// Positions holding `k`, in increasing order.
pub open spec fn positions(keys: Seq<KeyView>, k: KeyView) -> Seq<nat> {
    positions_from(keys, k, 0)
}

/// Whether some registration has key `k`.
pub open spec fn has_key(keys: Seq<KeyView>, k: KeyView) -> bool {
    exists|i: int| 0 <= i < keys.len() && keys[i] == k
}

/// The last position at or after `from` that holds `k`, if there is one.
pub open spec fn last_from(keys: Seq<KeyView>, k: KeyView, from: nat) -> Option<nat> {
    let m = positions_from(keys, k, from);
    if m.len() == 0 {
        None
    } else {
        Some(m.last())
    }
}

/// The position of the last registration of `k`, if there is one.
pub open spec fn last_match(keys: Seq<KeyView>, k: KeyView) -> Option<nat> {
    last_from(keys, k, 0)
}

/// Every listed position holds `k`, lies in `[from, len)`, and the list is increasing.
pub proof fn lemma_positions_from_props(keys: Seq<KeyView>, k: KeyView, from: nat)
    ensures
        forall|i: int|
            0 <= i < positions_from(keys, k, from).len() ==> {
                let p = #[trigger] positions_from(keys, k, from)[i];
                from <= p < keys.len() && keys[p as int] == k
            },
        forall|i: int, j: int|
            0 <= i < j < positions_from(keys, k, from).len() ==> positions_from(keys, k, from)[i]
                < positions_from(keys, k, from)[j],
        forall|p: nat|
            from <= p < keys.len() && keys[p as int] == k ==> positions_from(keys, k, from).contains(
                p,
            ),
        positions_from(keys, k, from).len() <= keys.len() - from || from > keys.len(),
    decreases keys.len() - from,
{
    if from < keys.len() {
        lemma_positions_from_props(keys, k, from + 1);
        let rest = positions_from(keys, k, from + 1);
        if keys[from as int] == k {
            let m = seq![from] + rest;
            assert(m[0] == from);
            assert forall|i: int| 0 < i < m.len() implies m[i] == rest[i - 1] by {}
            assert forall|p: nat| from <= p < keys.len() && keys[p as int] == k implies m.contains(
                p,
            ) by {
                if p == from {
                    assert(m[0] == p);
                } else {
                    let j = choose|j: int| 0 <= j < rest.len() && rest[j] == p;
                    assert(m[j + 1] == p);
                }
            }
        }
    }
}

/// `k` occurs somewhere exactly when its list of positions is non-empty.
pub proof fn lemma_has_key_positions(keys: Seq<KeyView>, k: KeyView)
    ensures
        has_key(keys, k) <==> positions(keys, k).len() > 0,
{
    lemma_positions_from_props(keys, k, 0);
    if has_key(keys, k) {
        let i = choose|i: int| 0 <= i < keys.len() && keys[i] == k;
        assert(positions(keys, k).contains(i as nat));
    }
    if positions(keys, k).len() > 0 {
        assert(keys[positions(keys, k)[0] as int] == k);
    }
}

/// Skipping positions that do not hold `k` leaves the list unchanged.
pub proof fn lemma_positions_skip(keys: Seq<KeyView>, k: KeyView, from: nat, to: nat)
    requires
        from <= to <= keys.len(),
        forall|j: int| from <= j < to ==> keys[j] != k,
    ensures
        positions_from(keys, k, from) == positions_from(keys, k, to),
    decreases to - from,
{
    if from < to {
        lemma_positions_skip(keys, k, from + 1, to);
    }
}

/// When `k` fills `[from, hi]` and does not occur after `hi`, the positions
/// from `from` are exactly that run.
pub proof fn lemma_positions_run(keys: Seq<KeyView>, k: KeyView, from: nat, hi: nat)
    requires
        from <= hi < keys.len(),
        forall|j: int| from <= j <= hi ==> keys[j] == k,
        forall|j: int| hi < j < keys.len() ==> keys[j] != k,
    ensures
        positions_from(keys, k, from).len() == hi - from + 1,
        positions_from(keys, k, from)[0] == from,
        positions_from(keys, k, from).last() == hi,
    decreases hi - from,
{
    if from == hi {
        lemma_positions_skip(keys, k, hi + 1, keys.len());
    } else {
        lemma_positions_run(keys, k, from + 1, hi);
    }
}

/// The last position at or after `from` that holds `k`.
pub fn find_last(keys: &Vec<ServiceKey>, k: &ServiceKey, from: usize) -> (r: Option<usize>)
    ensures
        r == match last_from(keys_view(keys@), k@, from as nat) {
            None => None::<usize>,
            Some(p) => Some(p as usize),
        },
        r is Some ==> r->0 < keys@.len(),
{
    let ghost kv = keys_view(keys@);
    let ghost mut seen: Seq<nat> = Seq::empty();
    let mut last: Option<usize> = None;
    if from >= keys.len() {
        return None;
    }
    let mut i: usize = from;
    while i < keys.len()
        invariant
            kv == keys_view(keys@),
            from <= i <= keys@.len(),
            positions_from(kv, k@, from as nat) == seen + positions_from(kv, k@, i as nat),
            last is None <==> seen.len() == 0,
            last is Some ==> seen.last() == last->0 as nat && last->0 < keys@.len(),
        decreases keys.len() - i,
    {
        if keys[i].same(k) {
            proof {
                assert(seen + positions_from(kv, k@, i as nat) =~= (seen + seq![i as nat])
                    + positions_from(kv, k@, (i + 1) as nat));
                seen = seen + seq![i as nat];
            }
            last = Some(i);
        }
        i = i + 1;
    }
    assert(seen + positions_from(kv, k@, i as nat) =~= seen);
    last
}

} // verus!
