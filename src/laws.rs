use vstd::prelude::*;

use crate::error::MSQError;
use crate::queue::{pop_outcome, push_outcome};

verus! {

/// Pushing the values of `vs` one after the other onto a lane holding `lane`,
/// with `cap` slots: what each push reports, and the lane left at the end.
pub open spec fn push_each<T>(lane: Seq<T>, cap: nat, vs: Seq<T>) -> (
    Seq<Result<(), MSQError>>,
    Seq<T>,
)
    decreases vs.len(),
{
    if vs.len() == 0 {
        (Seq::empty(), lane)
    } else {
        let first = push_outcome(lane, cap, vs[0]);
        let rest = push_each(first.1, cap, vs.drop_first());
        (seq![first.0] + rest.0, rest.1)
    }
}

/// Popping `k` times from a lane holding `lane`: what each pop reports, and
/// the lane left at the end.
pub open spec fn pop_times<T>(lane: Seq<T>, k: nat) -> (Seq<Result<T, MSQError>>, Seq<T>)
    decreases k,
{
    if k == 0 {
        (Seq::empty(), lane)
    } else {
        let first = pop_outcome(lane);
        let rest = pop_times(first.1, (k - 1) as nat);
        (seq![first.0] + rest.0, rest.1)
    }
}

/// Pushes that fit all succeed and append their values in order.
pub proof fn lemma_push_each_fits<T>(lane: Seq<T>, cap: nat, vs: Seq<T>)
    requires
        lane.len() + vs.len() <= cap,
    ensures
        push_each(lane, cap, vs).0 == Seq::new(vs.len(), |j: int| Ok::<(), MSQError>(())),
        push_each(lane, cap, vs).1 == lane + vs,
    decreases vs.len(),
{
    if vs.len() > 0 {
        lemma_push_each_fits(lane.push(vs[0]), cap, vs.drop_first());
        assert(lane.push(vs[0]) + vs.drop_first() =~= lane + vs);
        assert(seq![Ok::<(), MSQError>(())] + Seq::new(
            (vs.len() - 1) as nat,
            |j: int| Ok::<(), MSQError>(()),
        ) =~= Seq::new(vs.len(), |j: int| Ok::<(), MSQError>(())));
    }
}

/// Popping at most as many times as the lane holds returns its oldest values
/// in order, and leaves the rest.
pub proof fn lemma_pop_times_within<T>(lane: Seq<T>, k: nat)
    requires
        k <= lane.len(),
    ensures
        pop_times(lane, k).0 == lane.take(k as int).map_values(|v: T| Ok::<T, MSQError>(v)),
        pop_times(lane, k).1 == lane.skip(k as int),
    decreases k,
{
    if k > 0 {
        lemma_pop_times_within(lane.drop_first(), (k - 1) as nat);
        assert(lane.drop_first().skip(k - 1) =~= lane.skip(k as int));
        assert(seq![Ok::<T, MSQError>(lane[0])] + lane.drop_first().take(k - 1).map_values(
            |v: T| Ok::<T, MSQError>(v),
        ) =~= lane.take(k as int).map_values(|v: T| Ok::<T, MSQError>(v)));
    }
}

/// First in, first out: after pushing `vs` (no more than the lane's slots)
/// onto an empty lane, every push has succeeded, and as many pops return the
/// values of `vs` in the order they were pushed.
pub proof fn lemma_fifo<T>(cap: nat, vs: Seq<T>)
    requires
        vs.len() <= cap,
    ensures
        push_each(Seq::empty(), cap, vs).0 == Seq::new(vs.len(), |j: int| Ok::<(), MSQError>(())),
        pop_times(push_each(Seq::empty(), cap, vs).1, vs.len()).0 == vs.map_values(
            |v: T| Ok::<T, MSQError>(v),
        ),
{
    lemma_push_each_fits(Seq::empty(), cap, vs);
    assert(Seq::<T>::empty() + vs =~= vs);
    lemma_pop_times_within(vs, vs.len());
    assert(vs.take(vs.len() as int) =~= vs);
}

/// The capacity is exact: `cap` pushes onto an empty lane all succeed, and
/// one more push reports `QueueFull` and leaves the lane as it was.
pub proof fn lemma_capacity_boundary<T>(cap: nat, vs: Seq<T>, extra: T)
    requires
        vs.len() == cap,
    ensures
        push_each(Seq::empty(), cap, vs).0 == Seq::new(cap, |j: int| Ok::<(), MSQError>(())),
        push_outcome(push_each(Seq::empty(), cap, vs).1, cap, extra) == (
        Err::<(), MSQError>(MSQError::QueueFull),
        push_each(Seq::empty(), cap, vs).1,
        ),
{
    lemma_push_each_fits(Seq::empty(), cap, vs);
}

/// A pop from an empty lane reports `QueueEmpty` and leaves the lane empty.
pub proof fn lemma_pop_empty<T>()
    ensures
        pop_outcome(Seq::<T>::empty()) == (
        Err::<T, MSQError>(MSQError::QueueEmpty),
        Seq::<T>::empty(),
        ),
{
}

/// Filling an empty lane and draining it leaves it empty, after which a second
/// filling goes exactly as the first onto a fresh lane: every push succeeds
/// and the lane ends holding the new values.
pub proof fn lemma_refill<T>(cap: nat, vs: Seq<T>, ws: Seq<T>)
    requires
        vs.len() == cap,
        ws.len() == cap,
    ensures
        pop_times(push_each(Seq::empty(), cap, vs).1, cap).1 == Seq::<T>::empty(),
        push_each(pop_times(push_each(Seq::empty(), cap, vs).1, cap).1, cap, ws) == push_each(
            Seq::empty(),
            cap,
            ws,
        ),
        push_each(Seq::empty(), cap, ws).0 == Seq::new(cap, |j: int| Ok::<(), MSQError>(())),
        push_each(Seq::empty(), cap, ws).1 == ws,
{
    lemma_push_each_fits(Seq::empty(), cap, vs);
    assert(Seq::<T>::empty() + vs =~= vs);
    lemma_pop_times_within(vs, cap);
    assert(vs.skip(cap as int) =~= Seq::<T>::empty());
    lemma_push_each_fits(Seq::empty(), cap, ws);
    assert(Seq::<T>::empty() + ws =~= ws);
}

} // verus!
