use vstd::prelude::*;

use vstd::arithmetic::div_mod::{lemma_mod_self_0, lemma_small_mod};

use crate::error::MSQError;

verus! {

broadcast use vstd::array::group_array_axioms;

/// A group of `M` bounded FIFO queues ("lanes") of `N` slots each, all held
/// inline in the value itself.
///
/// Lane `i` keeps its values in `data[i]`: the oldest at slot `outs[i]`, the
/// next write going to slot `ins[i]`, both cursors advancing modulo `N`.
/// `empty[i]` tells an empty lane from a full one when the cursors meet.
pub struct MultiStackQueue<T, const N: usize, const M: usize> {
    data: [[Option<T>; N]; M],
    ins: [usize; M],
    outs: [usize; M],
    empty: [bool; M],
}

/// Slot of the value at position `k` (counting from the oldest) of a lane of
/// `n` slots whose oldest value sits at slot `out`, for `out < n` and `k < n`.
spec fn slot_of(n: int, out: int, k: int) -> int {
    if out + k < n {
        out + k
    } else {
        out + k - n
    }
}

/// Number of values held by a lane with cursors `ins`, `outs` and emptiness
/// flag `empty`, in a lane of `n` slots.
spec fn held(n: int, ins: int, outs: int, empty: bool) -> int {
    if empty {
        0
    } else if ins > outs {
        ins - outs
    } else {
        ins + n - outs
    }
}

/// What a push of `v` onto a lane holding `lane`, with `cap` slots, reports
/// and leaves: the lane grown by `v` at its end, or `QueueFull` and the lane
/// as it was.
pub open spec fn push_outcome<T>(lane: Seq<T>, cap: nat, v: T) -> (Result<(), MSQError>, Seq<T>) {
    if lane.len() < cap {
        (Ok(()), lane.push(v))
    } else {
        (Err(MSQError::QueueFull), lane)
    }
}

/// What a pop from a lane holding `lane` reports and leaves: its oldest value
/// and the rest of the lane, or `QueueEmpty` and the lane as it was.
pub open spec fn pop_outcome<T>(lane: Seq<T>) -> (Result<T, MSQError>, Seq<T>) {
    if lane.len() == 0 {
        (Err(MSQError::QueueEmpty), lane)
    } else {
        (Ok(lane[0]), lane.drop_first())
    }
}

/// Advancing a cursor below `n` by one, modulo `n`, wraps only at the end.
proof fn lemma_advance(n: int, x: int)
    requires
        0 <= x < n,
    ensures
        (x + 1) % n == if x + 1 < n {
            x + 1
        } else {
            0
        },
{
    if x + 1 < n {
        lemma_small_mod((x + 1) as nat, n as nat);
    } else {
        lemma_mod_self_0(n);
    }
}

impl<T, const N: usize, const M: usize> MultiStackQueue<T, N, M> {
    /// Number of values that lane `i` holds.
    closed spec fn lane_len(&self, i: int) -> int {
        held(N as int, self.ins@[i] as int, self.outs@[i] as int, self.empty@[i])
    }

    /// The values of lane `i`, oldest first.
    pub closed spec fn lane(&self, i: int) -> Seq<T> {
        Seq::new(
            self.lane_len(i) as nat,
            |k: int| self.data@[i]@[slot_of(N as int, self.outs@[i] as int, k)]->Some_0,
        )
    }

    /// Cursors in range, the flag set only when they meet, and exactly the
    /// slots from `outs[i]` on, as many as the lane holds, occupied.
    closed spec fn lane_wf(&self, i: int) -> bool {
        &&& self.ins@[i] < N
        &&& self.outs@[i] < N
        &&& self.empty@[i] ==> self.ins@[i] == self.outs@[i]
        &&& forall|k: int|
            0 <= k < N ==> (#[trigger] self.data@[i]@[slot_of(
                N as int,
                self.outs@[i] as int,
                k,
            )] is Some <==> k < self.lane_len(i))
    }

    /// Well-formedness: at least one slot per lane, and every lane consistent.
    pub closed spec fn wf(&self) -> bool {
        &&& N > 0
        &&& forall|i: int| 0 <= i < M ==> #[trigger] self.lane_wf(i)
    }
}

impl<T: Copy, const N: usize, const M: usize> MultiStackQueue<T, N, M> {
    /// A lane holds at most as many values as it has slots, and is never
    /// both full and empty.
    pub proof fn lemma_full_empty_exclusive(&self, id: int)
        requires
            self.wf(),
            0 <= id < M,
        ensures
            self@[id].len() <= N,
            !(self@[id].len() == N && self@[id].len() == 0),
    {
        assert(self.lane_wf(id));
    }

    /// Every lane of a fresh multiqueue is empty and, as each lane has at
    /// least one slot, not full.
    pub proof fn lemma_fresh_empty_not_full(id: int)
        requires
            N > 0,
            0 <= id < M,
        ensures
            Seq::new(M as nat, |i: int| Seq::<T>::empty())[id].len() == 0,
            Seq::new(M as nat, |i: int| Seq::<T>::empty())[id].len() != N,
    {
    }

    /// A multiqueue whose `M` lanes are all empty.
    pub fn new() -> (r: Self)
        requires
            N > 0,
        ensures
            r.wf(),
            r@ == Seq::new(M as nat, |i: int| Seq::<T>::empty()),
    {
        let lane: [Option<T>; N] = [None;N];
        let r = MultiStackQueue { data: [lane;M], ins: [0usize;M], outs: [0usize;M], empty: [true;M] };
        assert forall|i: int| 0 <= i < M implies #[trigger] r.lane_wf(i) by {
            assert(r.data@[i] == lane);
        }
        assert forall|i: int| 0 <= i < M implies #[trigger] r@[i] =~= Seq::<T>::empty() by {
            assert(r.empty@[i]);
        }
        assert(r@ =~= Seq::new(M as nat, |i: int| Seq::<T>::empty()));
        r
    }
}

impl<T, const N: usize, const M: usize> View for MultiStackQueue<T, N, M> {
    type V = Seq<Seq<T>>;

    /// One sequence per lane, each holding that lane's values, oldest first.
    open spec fn view(&self) -> Seq<Seq<T>> {
        Seq::new(M as nat, |i: int| self.lane(i))
    }
}

impl<T: Copy, const N: usize, const M: usize> MultiStackQueue<T, N, M> {
    /// Appends `value` to lane `id`, or reports `QueueIndexOutOfBounds` when
    /// there is no such lane and `QueueFull` when the lane has no free slot;
    /// on an error nothing changes. No other lane is touched.
    pub fn push(&mut self, id: usize, value: T) -> (r: Result<(), MSQError>)
        requires
            old(self).wf(),
        ensures
            final(self).wf(),
            id >= M ==> r == Err::<(), MSQError>(MSQError::QueueIndexOutOfBounds) && final(self)@
                == old(self)@,
            id < M ==> r == push_outcome(old(self)@[id as int], N as nat, value).0,
            id < M ==> final(self)@ == old(self)@.update(
                id as int,
                push_outcome(old(self)@[id as int], N as nat, value).1,
            ),
    {
        if id >= M {
            return Err(MSQError::QueueIndexOutOfBounds);
        }
        self.try_and_push(id, value)
    }

    fn try_and_push(&mut self, id: usize, value: T) -> (r: Result<(), MSQError>)
        requires
            old(self).wf(),
            id < M,
        ensures
            final(self).wf(),
            r == push_outcome(old(self)@[id as int], N as nat, value).0,
            final(self)@ == old(self)@.update(
                id as int,
                push_outcome(old(self)@[id as int], N as nat, value).1,
            ),
    {
        let ghost pre = *self;
        let ghost i = id as int;
        assert(pre.lane_wf(i));
        if self.ins[id] == self.outs[id] && !self.empty[id] {
            Err(MSQError::QueueFull)
        } else {
            let pos = self.ins[id];
            self.data[id][pos] = Some(value);
            self.ins[id] = (pos + 1) % N;
            self.empty[id] = false;
            proof {
                let c = pre.lane_len(i);
                lemma_advance(N as int, pos as int);
                assert(self.lane_len(i) == c + 1);
                assert forall|k: int| 0 <= k < N implies (#[trigger] self.data@[i]@[slot_of(
                    N as int,
                    self.outs@[i] as int,
                    k,
                )] is Some <==> k < self.lane_len(i)) by {
                    assert(pre.lane_wf(i));
                    if k != c {
                        assert(pre.data@[i]@[slot_of(N as int, pre.outs@[i] as int, k)] is Some
                            <==> k < c);
                    }
                }
                assert forall|j: int| 0 <= j < M implies #[trigger] self.lane_wf(j) by {
                    assert(pre.lane_wf(j));
                    if j != i {
                        assert(self.data@[j] == pre.data@[j]);
                    }
                }
                assert(self.lane(i) =~= pre.lane(i).push(value));
                assert forall|j: int| 0 <= j < M && j != i implies #[trigger] self.lane(j)
                    == pre.lane(j) by {
                    assert(self.data@[j] == pre.data@[j]);
                    assert(self.lane(j) =~= pre.lane(j));
                }
                assert(self@ =~= pre@.update(i, pre@[i].push(value)));
            }
            Ok(())
        }
    }

    /// Removes and returns the oldest value of lane `id`, or reports
    /// `QueueIndexOutOfBounds` when there is no such lane and `QueueEmpty`
    /// when the lane holds nothing; on an error nothing changes. No other
    /// lane is touched.
    pub fn pop(&mut self, id: usize) -> (r: Result<T, MSQError>)
        requires
            old(self).wf(),
        ensures
            final(self).wf(),
            id >= M ==> r == Err::<T, MSQError>(MSQError::QueueIndexOutOfBounds) && final(self)@
                == old(self)@,
            id < M ==> r == pop_outcome(old(self)@[id as int]).0,
            id < M ==> final(self)@ == old(self)@.update(
                id as int,
                pop_outcome(old(self)@[id as int]).1,
            ),
    {
        if id >= M {
            return Err(MSQError::QueueIndexOutOfBounds);
        }
        self.try_and_pop(id)
    }

    fn try_and_pop(&mut self, id: usize) -> (r: Result<T, MSQError>)
        requires
            old(self).wf(),
            id < M,
        ensures
            final(self).wf(),
            r == pop_outcome(old(self)@[id as int]).0,
            final(self)@ == old(self)@.update(id as int, pop_outcome(old(self)@[id as int]).1),
    {
        let ghost pre = *self;
        let ghost i = id as int;
        assert(pre.lane_wf(i));
        if self.empty[id] {
            Err(MSQError::QueueEmpty)
        } else {
            let pos = self.outs[id];
            assert(self.data@[i]@[slot_of(N as int, pos as int, 0)] is Some);
            let res = self.data[id][pos].unwrap();
            self.data[id][pos] = None;
            let next = (pos + 1) % N;
            self.outs[id] = next;
            if next == self.ins[id] {
                self.empty[id] = true;
            }
            proof {
                let c = pre.lane_len(i);
                lemma_advance(N as int, pos as int);
                assert(self.lane_len(i) == c - 1);
                assert forall|k: int| 0 <= k < N implies (#[trigger] self.data@[i]@[slot_of(
                    N as int,
                    self.outs@[i] as int,
                    k,
                )] is Some <==> k < self.lane_len(i)) by {
                    if k + 1 < N {
                        assert(pre.data@[i]@[slot_of(N as int, pos as int, k + 1)] is Some <==> k
                            + 1 < c);
                    }
                }
                assert forall|j: int| 0 <= j < M implies #[trigger] self.lane_wf(j) by {
                    assert(pre.lane_wf(j));
                    if j != i {
                        assert(self.data@[j] == pre.data@[j]);
                    }
                }
                assert forall|k: int| 0 <= k < c - 1 implies #[trigger] self.lane(i)[k]
                    == pre.lane(i)[k + 1] by {
                    assert(slot_of(N as int, next as int, k) == slot_of(N as int, pos as int, k + 1));
                }
                assert(self.lane(i) =~= pre.lane(i).drop_first());
                assert forall|j: int| 0 <= j < M && j != i implies #[trigger] self.lane(j)
                    == pre.lane(j) by {
                    assert(self.data@[j] == pre.data@[j]);
                    assert(self.lane(j) =~= pre.lane(j));
                }
                assert(self@ =~= pre@.update(i, pre@[i].drop_first()));
            }
            Ok(res)
        }
    }

    /// Whether lane `id` holds as many values as it has slots.
    pub fn is_full(&self, id: usize) -> (r: bool)
        requires
            self.wf(),
            id < M,
        ensures
            r == (self@[id as int].len() == N),
    {
        proof {
            assert(self.lane_wf(id as int));
        }
        !self.empty[id] && self.ins[id] == self.outs[id]
    }

    /// Whether lane `id` holds no value.
    pub fn is_empty(&self, id: usize) -> (r: bool)
        requires
            self.wf(),
            id < M,
        ensures
            r == (self@[id as int].len() == 0),
    {
        proof {
            assert(self.lane_wf(id as int));
        }
        self.empty[id]
    }
}

} // verus!
