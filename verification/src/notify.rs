//! One-shot completion signal: one sender, many clonable receivers.
//!
//! This module holds the channel's shared state and its transitions as plain
//! data: whether the sender has completed, and one waker slot per registered
//! receiver. The embedding owns the sharing and the actual wakers; it hands
//! each waker in as a token and wakes the tokens that transitions return.
//! A receiver cloned after completion registers no slot and resolves at once.

use vstd::prelude::*;

verus! {

/// Token standing for one parked waker.
pub type WakerToken = u64;

/// A receiver's registration: the index of its waiter slot, or `None` when
/// the channel had already completed when the receiver was made.
#[derive(Clone, Copy, PartialEq, Eq, Structural, Debug)]
pub struct Receiver {
    pub id: Option<usize>,
}

/// Shared state of one channel.
pub struct Channel {
    complete: bool,
    rx_tasks: Vec<Option<WakerToken>>,
}

/// The waker tokens parked in `slots`, in slot order.
pub open spec fn parked(slots: Seq<Option<WakerToken>>) -> Seq<WakerToken>
    decreases slots.len(),
{
    if slots.len() == 0 {
        Seq::empty()
    } else {
        parked(slots.drop_last()) + match slots.last() {
            Some(t) => seq![t],
            None => Seq::empty(),
        }
    }
}

/// A fresh channel with one registered, still-empty waiter slot for its
/// first receiver.
pub fn channel() -> (r: (Channel, Receiver))
    ensures
        !r.0.spec_complete(),
        r.0.slots() == seq![None::<WakerToken>],
        r.1.id == Some(0usize),
{
    let mut rx_tasks: Vec<Option<WakerToken>> = Vec::new();
    rx_tasks.push(None);
    let c = Channel { complete: false, rx_tasks };
    proof {
        assert(c.slots() =~= seq![None::<WakerToken>]);
    }
    (c, Receiver { id: Some(0) })
}

impl Channel {
    /// Whether the sender has dropped, completing the signal.
    pub closed spec fn spec_complete(self) -> bool {
        self.complete
    }

    /// The waiter slots, one per registered receiver.
    pub closed spec fn slots(self) -> Seq<Option<WakerToken>> {
        self.rx_tasks@
    }

    /// Clone a receiver. Law: after the sender has dropped, the clone is
    /// pre-completed — it registers no waiter slot and carries no slot id,
    /// so polling it resolves immediately. Before completion the clone gets
    /// a fresh, empty slot.
    pub fn clone_receiver(&mut self) -> (r: Receiver)
        requires
            old(self).slots().len() < usize::MAX as int,
        ensures
            old(self).spec_complete() ==> r.id is None && final(self).slots() == old(self).slots(),
            !old(self).spec_complete() ==> r.id == Some(old(self).slots().len() as usize)
                && final(self).slots() == old(self).slots().push(None),
            final(self).spec_complete() == old(self).spec_complete(),
    {
        if self.complete {
            Receiver { id: None }
        } else {
            let id = self.rx_tasks.len();
            self.rx_tasks.push(None);
            Receiver { id: Some(id) }
        }
    }

    /// Drop the sender: mark the channel complete, take every parked waker
    /// out of its slot and return them for waking.
    pub fn drop_tx(&mut self) -> (wake: Vec<WakerToken>)
        ensures
            final(self).spec_complete(),
            final(self).slots().len() == old(self).slots().len(),
            forall|i: int|
                0 <= i < final(self).slots().len() ==> (#[trigger] final(self).slots()[i]) is None,
            wake@ == parked(old(self).slots()),
    {
        self.complete = true;
        let mut wake: Vec<WakerToken> = Vec::new();
        let n = self.rx_tasks.len();
        let mut i: usize = 0;
        while i < n
            invariant
                i <= n,
                n == self.rx_tasks@.len(),
                self.rx_tasks@.len() == old(self).slots().len(),
                self.complete,
                forall|k: int| 0 <= k < i ==> (#[trigger] self.rx_tasks@[k]) is None,
                forall|k: int|
                    i <= k < n ==> (#[trigger] self.rx_tasks@[k]) == old(self).slots()[k],
                wake@ == parked(old(self).slots().subrange(0, i as int)),
            decreases n - i,
        {
            let slot = self.rx_tasks[i];
            proof {
                assert(old(self).slots().subrange(0, i + 1).drop_last() =~= old(
                    self,
                ).slots().subrange(0, i as int));
                assert(old(self).slots().subrange(0, i + 1).last() == old(self).slots()[i as int]);
            }
            match slot {
                Some(t) => {
                    wake.push(t);
                },
                None => {},
            }
            self.rx_tasks.set(i, None);
            i += 1;
        }
        proof {
            assert(old(self).slots().subrange(0, n as int) =~= old(self).slots());
        }
        wake
    }

    /// Poll a receiver: pre-completed receivers and polls after completion
    /// resolve immediately; otherwise the waker is parked in the receiver's
    /// slot and the poll is pending.
    pub fn recv(&mut self, id: Option<usize>, waker: WakerToken) -> (ready: bool)
        requires
            id matches Some(i) ==> (i as int) < old(self).slots().len(),
        ensures
            final(self).spec_complete() == old(self).spec_complete(),
            id is None ==> ready && final(self).slots() == old(self).slots(),
            id is Some && old(self).spec_complete() ==> ready && final(self).slots() == old(
                self,
            ).slots(),
            id matches Some(i) ==> (!old(self).spec_complete() ==> !ready && final(self).slots()
                == old(self).slots().update(i as int, Some(waker))),
    {
        match id {
            None => true,
            Some(i) => {
                if self.complete {
                    true
                } else {
                    self.rx_tasks.set(i, Some(waker));
                    false
                }
            },
        }
    }

    /// Drop a receiver: clear its waiter slot, if it has one.
    pub fn drop_rx(&mut self, id: Option<usize>)
        requires
            id matches Some(i) ==> (i as int) < old(self).slots().len(),
        ensures
            final(self).spec_complete() == old(self).spec_complete(),
            id is None ==> final(self).slots() == old(self).slots(),
            id matches Some(i) ==> final(self).slots() == old(self).slots().update(
                i as int,
                None,
            ),
    {
        match id {
            None => {},
            Some(i) => {
                self.rx_tasks.set(i, None);
            },
        }
    }
}

} // verus!
