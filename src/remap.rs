use vstd::prelude::*;

verus! {

/// `s` holds each of `0..n` exactly once.
pub open spec fn is_arrangement(s: Seq<usize>, n: nat) -> bool {
    &&& s.len() == n
    &&& forall|i: int| 0 <= i < s.len() ==> (#[trigger] s[i]) < n
    &&& forall|i: int, j: int| 0 <= i < s.len() && 0 <= j < s.len() && i != j ==> s[i] != s[j]
    &&& forall|v: usize| v < n ==> #[trigger] s.contains(v)
}

/// A completion report is consistent with `n` slots when the slots of the
/// tasks still running, followed by the stopped slot, name every slot once.
pub open spec fn is_consistent_report(n: nat, stopped: usize, remaining: Seq<usize>) -> bool {
    is_arrangement(remaining.push(stopped), n)
}

/// Builds the table that sends each old slot to its new slot: a task still
/// running moves to its position in `remaining`, and the stopped slot goes
/// to the tail, `n - 1`. Returns `None` when the report does not name every
/// slot exactly once.
pub fn relocation(n: usize, stopped: usize, remaining: &Vec<usize>) -> (r: Option<Vec<usize>>)
    ensures
        r.is_some() <==> is_consistent_report(n as nat, stopped, remaining@),
        r matches Some(t) ==> {
            &&& t@.len() == n
            &&& t@[stopped as int] == n - 1
            &&& forall|k: int| 0 <= k < remaining@.len() ==> t@[#[trigger] remaining@[k] as int] == k
            &&& is_arrangement(t@, n as nat)
        },
{
    let ghost full = remaining@.push(stopped);
    if stopped >= n || remaining.len() != n - 1 {
        proof {
            if stopped >= n {
                assert(full[full.len() - 1] == stopped);
            }
        }
        return None;
    }
    let mut table: Vec<usize> = Vec::new();
    let mut i: usize = 0;
    while i < n
        invariant
            i <= n,
            table@.len() == i,
            forall|j: int| 0 <= j < i ==> table@[j] == n,
        decreases n - i,
    {
        table.push(n);
        i = i + 1;
    }
    table.set(stopped, n - 1);
    let mut k: usize = 0;
    while k < n - 1
        invariant
            stopped < n,
            remaining@.len() + 1 == n,
            full == remaining@.push(stopped),
            k <= n - 1,
            table@.len() == n,
            table@[stopped as int] == n - 1,
            forall|j: int| 0 <= j < k ==> (#[trigger] remaining@[j]) < n,
            forall|j: int| 0 <= j < k ==> table@[#[trigger] remaining@[j] as int] == j,
            forall|t: int|
                0 <= t < n ==> {
                    ||| table@[t] == n
                    ||| (table@[t] == n - 1 && t == stopped)
                    ||| (table@[t] < k && remaining@[table@[t] as int] == t)
                },
        decreases n - 1 - k,
    {
        let t = remaining[k];
        if t >= n {
            proof {
                assert(full[k as int] == t);
            }
            return None;
        }
        if table[t] != n {
            proof {
                if t == stopped {
                    assert(full[k as int] == full[full.len() - 1]);
                } else {
                    let j = table@[t as int] as int;
                    assert(full[k as int] == full[j]);
                }
            }
            return None;
        }
        table.set(t, k);
        k = k + 1;
    }
    let mut i: usize = 0;
    while i < n
        invariant
            i <= n,
            stopped < n,
            remaining@.len() + 1 == n,
            full == remaining@.push(stopped),
            table@.len() == n,
            forall|j: int| 0 <= j < i ==> table@[j] != n,
            table@[stopped as int] == n - 1,
            forall|j: int| 0 <= j < n - 1 ==> (#[trigger] remaining@[j]) < n,
            forall|j: int| 0 <= j < n - 1 ==> table@[#[trigger] remaining@[j] as int] == j,
            forall|t: int|
                0 <= t < n ==> {
                    ||| table@[t] == n
                    ||| (table@[t] == n - 1 && t == stopped)
                    ||| (table@[t] < n - 1 && remaining@[table@[t] as int] == t)
                },
        decreases n - i,
    {
        if table[i] == n {
            proof {
                assert forall|j: int| 0 <= j < full.len() implies full[j] != i by {
                    if j < n - 1 {
                        assert(table@[remaining@[j] as int] == j);
                    }
                }
                assert(!full.contains(i));
            }
            return None;
        }
        i = i + 1;
    }
    proof {
        assert forall|j: int| 0 <= j < full.len() implies (#[trigger] full[j]) < n by {
            if j < n - 1 {
                assert(full[j] == remaining@[j]);
            }
        }
        assert forall|a: int, b: int|
            0 <= a < full.len() && 0 <= b < full.len() && a != b implies full[a] != full[b] by {
            if a < n - 1 {
                assert(table@[remaining@[a] as int] == a);
            }
            if b < n - 1 {
                assert(table@[remaining@[b] as int] == b);
            }
        }
        assert forall|v: usize| v < n implies #[trigger] full.contains(v) by {
            if table@[v as int] == n - 1 {
                assert(full[n - 1] == v);
            } else {
                assert(full[table@[v as int] as int] == v);
            }
        }
        assert forall|a: int| 0 <= a < table@.len() implies (#[trigger] table@[a]) < n by {}
        assert forall|a: int, b: int|
            0 <= a < table@.len() && 0 <= b < table@.len() && a != b implies table@[a] != table@[b] by {}
        assert forall|v: usize| v < n implies #[trigger] table@.contains(v) by {
            if v == n - 1 {
                assert(table@[stopped as int] == v);
            } else {
                assert(table@[remaining@[v as int] as int] == v);
            }
        }
    }
    Some(table)
}

/// The slot-to-factory table after a completion: the factories of the tasks
/// still running, in the order reported, then the stopped slot's factory.
pub open spec fn respawned(slots: Seq<usize>, stopped: usize, remaining: Seq<usize>) -> Seq<usize> {
    Seq::new(remaining.len(), |k: int| slots[remaining[k] as int]).push(slots[stopped as int])
}

/// Moves each entry of `slots` to the position that `table` gives it.
pub fn relocate(slots: &Vec<usize>, table: &Vec<usize>) -> (r: Vec<usize>)
    requires
        is_arrangement(table@, slots@.len()),
    ensures
        r@.len() == slots@.len(),
        forall|i: int| 0 <= i < slots@.len() ==> r@[#[trigger] table@[i] as int] == slots@[i],
{
    let n = slots.len();
    let mut r: Vec<usize> = Vec::new();
    let mut i: usize = 0;
    while i < n
        invariant
            i <= n,
            r@.len() == i,
        decreases n - i,
    {
        r.push(0);
        i = i + 1;
    }
    let mut i: usize = 0;
    while i < n
        invariant
            n == slots@.len(),
            is_arrangement(table@, n as nat),
            i <= n,
            r@.len() == n,
            forall|j: int| 0 <= j < i ==> r@[#[trigger] table@[j] as int] == slots@[j],
        decreases n - i,
    {
        let t = table[i];
        r.set(t, slots[i]);
        i = i + 1;
    }
    r
}

/// Recomputes the slot-to-factory table after the task in slot `stopped`
/// completed, given the old slots of the tasks still running in the order the
/// completion primitive handed them back. The stopped slot's factory takes
/// the tail slot. Returns `None` when the report is inconsistent with the
/// table, which can only come from a broken invariant.
pub fn remap_slots(slots: &Vec<usize>, stopped: usize, remaining: &Vec<usize>) -> (r: Option<Vec<usize>>)
    ensures
        r.is_some() <==> is_consistent_report(slots@.len(), stopped, remaining@),
        r matches Some(s) ==> s@ == respawned(slots@, stopped, remaining@),
{
    match relocation(slots.len(), stopped, remaining) {
        None => None,
        Some(table) => {
            let r = relocate(slots, &table);
            proof {
                let n = slots@.len();
                let expect = respawned(slots@, stopped, remaining@);
                let full = remaining@.push(stopped);
                assert(full[n - 1] == stopped);
                assert forall|k: int| 0 <= k < n implies r@[k] == expect[k] by {
                    if k < n - 1 {
                        assert(full[k] == remaining@[k]);
                        let i = remaining@[k] as int;
                        assert(table@[i] == k);
                        assert(r@[table@[i] as int] == slots@[i]);
                    } else {
                        assert(r@[table@[stopped as int] as int] == slots@[stopped as int]);
                    }
                }
                assert(r@ =~= expect);
            }
            Some(r)
        },
    }
}

/// Every recomputed table is again an arrangement of the factories: after a
/// consistent completion report, each factory still owns exactly one slot.
pub proof fn lemma_respawn_keeps_arrangement(slots: Seq<usize>, stopped: usize, remaining: Seq<usize>, n: nat)
    requires
        n <= usize::MAX,
        is_arrangement(slots, n),
        is_consistent_report(n, stopped, remaining),
    ensures
        is_arrangement(respawned(slots, stopped, remaining), n),
{
    let full = remaining.push(stopped);
    let r = respawned(slots, stopped, remaining);
    assert(full[n - 1] == stopped);
    assert forall|k: int| 0 <= k < n implies r[k] == slots[full[k] as int] && full[k] < n by {
        if k < n - 1 {
            assert(full[k] == remaining[k]);
        }
    }
    assert forall|i: int| 0 <= i < r.len() implies (#[trigger] r[i]) < n by {
        assert(full[i] < n);
    }
    assert forall|i: int, j: int| 0 <= i < r.len() && 0 <= j < r.len() && i != j implies r[i] != r[j] by {
        assert(r[i] == slots[full[i] as int] && full[i] < n);
        assert(r[j] == slots[full[j] as int] && full[j] < n);
    }
    assert forall|v: usize| v < n implies #[trigger] r.contains(v) by {
        assert(slots.contains(v));
        let i = choose|i: int| 0 <= i < slots.len() && slots[i] == v;
        assert(full.contains(i as usize));
        let k = choose|k: int| 0 <= k < full.len() && full[k] == i as usize;
        assert(r[k] == slots[full[k] as int] && full[k] < n);
        assert(r[k] == v);
    }
}

/// The slots of the tasks that did not complete, in order, when the
/// completion primitive keeps the relative order of the tasks it hands back.
pub open spec fn survivors_in_order(n: nat, stopped: usize) -> Seq<usize> {
    Seq::new((n - 1) as nat, |k: int| if k < stopped { k as usize } else { (k + 1) as usize })
}

/// When the tasks still running are reported in their old relative order,
/// the recomputed table keeps that order: the stopped slot is taken out, the
/// others close up, and its factory goes to the tail.
pub proof fn lemma_order_kept(slots: Seq<usize>, stopped: usize)
    requires
        stopped < slots.len(),
        slots.len() <= usize::MAX,
    ensures
        is_consistent_report(slots.len(), stopped, survivors_in_order(slots.len(), stopped)),
        respawned(slots, stopped, survivors_in_order(slots.len(), stopped))
            == slots.remove(stopped as int).push(slots[stopped as int]),
{
    let n = slots.len();
    let rem = survivors_in_order(n, stopped);
    let full = rem.push(stopped);
    assert(full[n - 1] == stopped);
    assert forall|i: int| 0 <= i < full.len() implies (#[trigger] full[i]) < n by {
        if i < n - 1 {
            assert(full[i] == rem[i]);
        }
    }
    assert forall|i: int, j: int| 0 <= i < full.len() && 0 <= j < full.len() && i != j implies full[i] != full[j] by {
        if i < n - 1 {
            assert(full[i] == rem[i]);
        }
        if j < n - 1 {
            assert(full[j] == rem[j]);
        }
    }
    assert forall|v: usize| v < n implies #[trigger] full.contains(v) by {
        if v == stopped {
            assert(full[n - 1] == v);
        } else if v < stopped {
            assert(full[v as int] == rem[v as int]);
        } else {
            assert(full[v - 1] == rem[v - 1]);
        }
    }
    assert(respawned(slots, stopped, rem) =~= slots.remove(stopped as int).push(slots[stopped as int]));
}

} // verus!
