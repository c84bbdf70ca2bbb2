//! The queue of payloads for a sink, and what becomes of a payload.
use super::{SinkError, SinkFault};
use crate::audit::export::WitnessAttrs;
use crate::audit::witness::{PayloadModel, SinkPayload, Witness};
use std::collections::VecDeque;
use vstd::prelude::*;

verus! {

/// How many payloads wait at most.
pub const QUEUE_CAP: usize = 1024;

/// The first wait after a failure, in milliseconds.
pub const FIRST_WAIT_MS: u128 = 50;

/// What waits, and what was counted.
pub ghost struct QueueModel {
    pub items: Seq<PayloadModel>,
    pub dropped: u64,
    pub conflicts: u64,
}

/// One more than a counter, which wraps.
pub open spec fn counted(n: u64) -> u64 {
    if n == u64::MAX {
        0
    } else {
        (n + 1) as u64
    }
}

impl QueueModel {
    /// Nothing yet.
    pub open spec fn nothing() -> QueueModel {
        QueueModel { items: Seq::empty(), dropped: 0, conflicts: 0 }
    }

    /// With room for one more: where there is none, the oldest is dropped.
    pub open spec fn with_room(self) -> QueueModel {
        if self.items.len() >= QUEUE_CAP {
            QueueModel {
                items: self.items.drop_first(),
                dropped: counted(self.dropped),
                conflicts: self.conflicts,
            }
        } else {
            self
        }
    }

    /// With a payload at the end.
    pub open spec fn submitted(self, p: PayloadModel) -> QueueModel {
        QueueModel { items: self.with_room().items.push(p), ..self.with_room() }
    }

    /// With a payload put back at the front.
    pub open spec fn requeued(self, p: PayloadModel) -> QueueModel {
        QueueModel { items: seq![p] + self.with_room().items, ..self.with_room() }
    }

    /// With payloads at the end, one after another.
    pub open spec fn submitted_all(self, ps: Seq<PayloadModel>) -> QueueModel
        decreases ps.len(),
    {
        if ps.len() == 0 {
            self
        } else {
            self.submitted_all(ps.drop_last()).submitted(ps.last())
        }
    }
}

/// Payloads that wait for a sink. The oldest is dropped when there are too
/// many.
pub struct WitnessQueue {
    queue: VecDeque<SinkPayload>,
    dropped: u64,
    conflicts: u64,
}

impl View for WitnessQueue {
    type V = QueueModel;

    closed spec fn view(&self) -> QueueModel {
        QueueModel {
            items: self.queue@.map_values(|p: SinkPayload| p@),
            dropped: self.dropped,
            conflicts: self.conflicts,
        }
    }
}

/// A payload on its way, with its key, its bytes and the wait that comes after
/// the next failure.
pub struct Sending {
    payload: SinkPayload,
    key: String,
    body: Vec<u8>,
    interval_s: u64,
    wait_ms: u128,
}

/// What is on its way.
pub ghost struct SendingModel {
    pub payload: PayloadModel,
    pub interval_s: u64,
    pub wait_ms: nat,
}

impl View for Sending {
    type V = SendingModel;

    closed spec fn view(&self) -> SendingModel {
        SendingModel {
            payload: self.payload@,
            interval_s: self.interval_s,
            wait_ms: self.wait_ms as nat,
        }
    }
}

/// The wait before the `k`th attempt after the first: it doubles from one to
/// the next up to the interval.
pub open spec fn wait_after(k: nat, interval_s: u64) -> nat
    decreases k,
{
    if k == 0 {
        FIRST_WAIT_MS as nat
    } else {
        next_wait(wait_after((k - 1) as nat, interval_s), interval_s)
    }
}

/// The wait that follows a wait.
pub open spec fn next_wait(wait_ms: nat, interval_s: u64) -> nat {
    if 2 * wait_ms <= interval_s * 1000 {
        2 * wait_ms
    } else {
        (interval_s * 1000) as nat
    }
}

impl Sending {
    #[verifier::type_invariant]
    spec fn inv(self) -> bool {
        &&& self.key@ == self.payload@.name()
        &&& self.body@ == self.payload@.encoded()
        &&& self.interval_s >= 1
        &&& self.wait_ms <= self.interval_s * 1000
    }

    /// The key under which the payload goes.
    pub fn key(&self) -> (r: &String)
        ensures
            r@ == self@.payload.name(),
    {
        proof {
            use_type_invariant(self);
        }
        &self.key
    }

    /// The bytes that go.
    pub fn body(&self) -> (r: &Vec<u8>)
        ensures
            r@ == self@.payload.encoded(),
    {
        proof {
            use_type_invariant(self);
        }
        &self.body
    }

    /// The attributes to export, if the payload is a witness.
    pub fn attrs(&self) -> (r: Option<WitnessAttrs>)
        ensures
            match self@.payload {
                PayloadModel::Witness(w) => r matches Some(a) && a.gateway_id@ == w.gateway_id
                    && a.file_ulid@ == w.file_ulid && a.sequence == w.sequence && a.head_hash@
                    == w.head_hash && a.wall_time_ns == w.wall_time_ns,
                PayloadModel::Retention(_) => r is None,
            },
    {
        match &self.payload {
            SinkPayload::Witness(w) => Some(w.to_attrs()),
            SinkPayload::Retention(_) => None,
        }
    }
}

/// What to do after an attempt.
pub enum DeliveryAction {
    /// The payload is stored.
    Delivered,
    /// The key exists; the payload is not tried again.
    Conflict,
    /// The payload is back in the queue.
    Requeued,
    /// Try again after a wait.
    Retry { sending: Sending, wait_ms: u128 },
}

/// An attempt that failed for good, for now.
pub open spec fn gives_up(interval_s: u64, elapsed_ms: u128, stopped: bool) -> bool {
    elapsed_ms >= interval_s * 1000 || stopped
}

impl WitnessQueue {
    #[verifier::type_invariant]
    spec fn inv(self) -> bool {
        self.queue@.len() <= QUEUE_CAP
    }

    /// An empty queue.
    pub fn new() -> (r: WitnessQueue)
        ensures
            r@ == QueueModel::nothing(),
    {
        let r = WitnessQueue { queue: VecDeque::new(), dropped: 0, conflicts: 0 };
        assert(r@.items =~= Seq::empty());
        r
    }

    /// How many payloads wait: never more than [`QUEUE_CAP`].
    pub fn len(&self) -> (r: usize)
        ensures
            r == self@.items.len(),
            r <= QUEUE_CAP,
    {
        proof {
            use_type_invariant(self);
        }
        self.queue.len()
    }

    /// How many payloads were dropped.
    pub fn dropped(&self) -> (r: u64)
        ensures
            r == self@.dropped,
    {
        self.dropped
    }

    /// How many payloads met a key that existed.
    pub fn conflicts(&self) -> (r: u64)
        ensures
            r == self@.conflicts,
    {
        self.conflicts
    }

    /// Makes room; says whether a payload was dropped for it.
    fn make_room(queue: &mut VecDeque<SinkPayload>, dropped: &mut u64) -> (r: bool)
        requires
            old(queue)@.len() <= QUEUE_CAP,
        ensures
            final(queue)@.len() < QUEUE_CAP,
            r == (old(queue)@.len() >= QUEUE_CAP),
            r ==> final(queue)@ == old(queue)@.drop_first() && *final(dropped) == counted(
                *old(dropped),
            ),
            !r ==> final(queue)@ == old(queue)@ && *final(dropped) == *old(dropped),
    {
        if queue.len() >= QUEUE_CAP {
            let ghost before = queue@;
            let _ = queue.pop_front();
            assert(queue@ =~= before.drop_first());
            *dropped = dropped.wrapping_add(1);
            return true;
        }
        false
    }

    /// Enqueues without blocking. Drops the oldest when over capacity, and says
    /// whether it did.
    pub fn submit(&mut self, payload: SinkPayload) -> (r: bool)
        ensures
            final(self)@ == old(self)@.submitted(payload@),
            r == (old(self)@.items.len() >= QUEUE_CAP),
    {
        proof {
            use_type_invariant(&*self);
        }
        let mut queue = VecDeque::new();
        std::mem::swap(&mut queue, &mut self.queue);
        let ghost before = queue@;
        let mut dropped = self.dropped;
        let r = Self::make_room(&mut queue, &mut dropped);
        queue.push_back(payload);
        self.dropped = dropped;
        self.queue = queue;
        assert(self@.items =~= old(self)@.submitted(payload@).items);
        r
    }

    /// Enqueues a witness.
    pub fn submit_witness(&mut self, w: Witness) -> (r: bool)
        ensures
            final(self)@ == old(self)@.submitted(PayloadModel::Witness(w@)),
            r == (old(self)@.items.len() >= QUEUE_CAP),
    {
        self.submit(SinkPayload::Witness(w))
    }

    /// Takes the oldest payload, ready to send. The interval is at least a
    /// second.
    pub fn next(&mut self, interval_s: u64) -> (r: Option<Sending>)
        ensures
            match r {
                Some(s) => old(self)@.items.len() > 0 && s@ == (SendingModel {
                    payload: old(self)@.items[0],
                    interval_s: if interval_s == 0 {
                        1
                    } else {
                        interval_s
                    },
                    wait_ms: wait_after(0, interval_s),
                }) && final(self)@ == (QueueModel {
                    items: old(self)@.items.drop_first(),
                    ..old(self)@
                }),
                None => old(self)@.items.len() == 0 && final(self)@ == old(self)@,
            },
    {
        proof {
            use_type_invariant(&*self);
        }
        let mut queue = VecDeque::new();
        std::mem::swap(&mut queue, &mut self.queue);
        let ghost before = queue@;
        let taken = queue.pop_front();
        self.queue = queue;
        match taken {
            None => {
                assert(self@.items =~= old(self)@.items);
                None
            },
            Some(payload) => {
                assert(self@.items =~= old(self)@.items.drop_first());
                assert(old(self)@.items[0] == before[0]@);
                let key = payload.object_key();
                match payload.encode_cbor() {
                    Ok(body) => {
                        let interval: u64 = if interval_s == 0 {
                            1
                        } else {
                            interval_s
                        };
                        Some(
                            Sending {
                                payload,
                                key,
                                body,
                                interval_s: interval,
                                wait_ms: FIRST_WAIT_MS,
                            },
                        )
                    },
                    Err(_) => None,
                }
            },
        }
    }

    /// Settles an attempt made `elapsed_ms` after the first one for the
    /// payload. A payload is given up, and put back at the front, once the
    /// interval has passed or the delivery is being stopped.
    pub fn settle(
        &mut self,
        sending: Sending,
        outcome: &Result<(), SinkError>,
        elapsed_ms: u128,
        stopped: bool,
    ) -> (r: DeliveryAction)
        ensures
            match *outcome {
                Ok(_) => r is Delivered && final(self)@ == old(self)@,
                Err(e) => if e@ == SinkFault::Conflict {
                    r is Conflict && final(self)@ == (QueueModel {
                        conflicts: counted(old(self)@.conflicts),
                        ..old(self)@
                    })
                } else if gives_up(sending@.interval_s, elapsed_ms, stopped) {
                    r is Requeued && final(self)@ == old(self)@.requeued(sending@.payload)
                } else {
                    r matches DeliveryAction::Retry { sending: s, wait_ms } && wait_ms
                        == sending@.wait_ms && s@ == (SendingModel {
                        wait_ms: next_wait(sending@.wait_ms, sending@.interval_s),
                        ..sending@
                    }) && final(self)@ == old(self)@
                },
            },
    {
        proof {
            use_type_invariant(&*self);
            use_type_invariant(&sending);
        }
        match outcome {
            Ok(_) => DeliveryAction::Delivered,
            Err(SinkError::Conflict) => {
                self.conflicts = self.conflicts.wrapping_add(1);
                assert(self@.items =~= old(self)@.items);
                DeliveryAction::Conflict
            },
            Err(_) => {
                let limit: u128 = sending.interval_s as u128 * 1000;
                if elapsed_ms >= limit || stopped {
                    let mut queue = VecDeque::new();
                    std::mem::swap(&mut queue, &mut self.queue);
                    let mut dropped = self.dropped;
                    let _ = Self::make_room(&mut queue, &mut dropped);
                    let payload = sending.payload;
                    queue.push_front(payload);
                    self.dropped = dropped;
                    self.queue = queue;
                    assert(self@.items =~= old(self)@.requeued(sending@.payload).items);
                    return DeliveryAction::Requeued;
                }
                let wait_ms: u128 = sending.wait_ms;
                let doubled: u128 = wait_ms * 2;
                let later: u128 = if doubled <= limit {
                    doubled
                } else {
                    limit
                };
                DeliveryAction::Retry {
                    sending: Sending {
                        payload: sending.payload,
                        key: sending.key,
                        body: sending.body,
                        interval_s: sending.interval_s,
                        wait_ms: later,
                    },
                    wait_ms,
                }
            },
        }
    }
}

/// How long ago the last delivery was, in nanoseconds: `elapsed_ns` after the
/// start, with the last delivery `delivered_ms` after it. Zero stands for no
/// delivery, and the time is then counted from the start.
pub fn lag_ns(elapsed_ns: u128, delivered_ms: u64) -> (r: u128)
    ensures
        r == if delivered_ms == 0 {
            elapsed_ns as int
        } else if elapsed_ns >= delivered_ms * 1_000_000 {
            elapsed_ns - delivered_ms * 1_000_000
        } else {
            0
        },
{
    if delivered_ms == 0 {
        return elapsed_ns;
    }
    let at: u128 = delivered_ms as u128 * 1_000_000;
    if elapsed_ns >= at {
        elapsed_ns - at
    } else {
        0
    }
}

/// The queue holds the newest payloads of those submitted, at most
/// [`QUEUE_CAP`], in the order in which they came, and counts the others as
/// dropped.
pub proof fn queue_keeps_the_newest(ps: Seq<PayloadModel>)
    requires
        ps.len() <= u64::MAX,
    ensures
        ps.len() <= QUEUE_CAP ==> QueueModel::nothing().submitted_all(ps) == (QueueModel {
            items: ps,
            dropped: 0,
            conflicts: 0,
        }),
        ps.len() > QUEUE_CAP ==> QueueModel::nothing().submitted_all(ps) == (QueueModel {
            items: ps.skip(ps.len() - QUEUE_CAP),
            dropped: (ps.len() - QUEUE_CAP) as u64,
            conflicts: 0,
        }),
    decreases ps.len(),
{
    let m = QueueModel::nothing().submitted_all(ps);
    if ps.len() == 0 {
        assert(m.items =~= ps);
    } else {
        let head = ps.drop_last();
        queue_keeps_the_newest(head);
        if head.len() < QUEUE_CAP {
            assert(m.items =~= ps);
        } else if head.len() == QUEUE_CAP {
            assert(m.items =~= ps.skip(ps.len() - QUEUE_CAP));
        } else {
            assert(m.items =~= ps.skip(ps.len() - QUEUE_CAP));
        }
    }
}

/// The waits between attempts never grow beyond the interval and never
/// shrink, and each is twice the one before or the interval.
pub proof fn waits_grow_to_the_interval(k: nat, interval_s: u64)
    requires
        interval_s >= 1,
    ensures
        50 <= wait_after(k, interval_s) <= interval_s * 1000,
        wait_after(k, interval_s) <= wait_after(k + 1, interval_s),
        wait_after(k + 1, interval_s) == 2 * wait_after(k, interval_s) || wait_after(
            k + 1,
            interval_s,
        ) == interval_s * 1000,
    decreases k,
{
    if k > 0 {
        waits_grow_to_the_interval((k - 1) as nat, interval_s);
    }
}

/// A payload that cannot be delivered is not lost: put back after it was taken,
/// it is the next to be taken, and what waited behind it still does.
pub proof fn put_back_comes_first(q: QueueModel)
    requires
        0 < q.items.len() <= QUEUE_CAP,
    ensures
        (QueueModel { items: q.items.drop_first(), ..q }).requeued(q.items[0]) == q,
{
    let m = (QueueModel { items: q.items.drop_first(), ..q }).requeued(q.items[0]);
    assert(m.items =~= q.items);
}

/// A delivery goes on while the interval lasts, and no longer; one that is
/// being stopped does not go on.
pub proof fn deliveries_last_an_interval(interval_s: u64, elapsed_ms: u128)
    ensures
        gives_up(interval_s, elapsed_ms, true),
        gives_up(interval_s, elapsed_ms, false) <==> elapsed_ms >= 1000 * interval_s,
{
}

/// The queue holds 1024 payloads; the first wait is 50 milliseconds.
pub proof fn queue_limits(interval_s: u64)
    ensures
        QUEUE_CAP == 1024,
        wait_after(0, interval_s) == 50,
        interval_s >= 1 ==> wait_after(1, interval_s) == 100,
{
    reveal_with_fuel(wait_after, 2);
}

/// A payload that comes while there is room changes nothing but the end of the
/// queue; one that is put back while there is none costs the oldest of those
/// that wait, which is counted.
pub proof fn a_full_queue_drops_its_oldest(q: QueueModel, p: PayloadModel)
    requires
        q.items.len() <= 1024,
        q.dropped < u64::MAX,
    ensures
        q.items.len() < 1024 ==> q.submitted(p) == (QueueModel { items: q.items.push(p), ..q })
            && q.requeued(p) == (QueueModel { items: seq![p] + q.items, ..q }),
        q.items.len() == 1024 ==> q.submitted(p) == (QueueModel {
            items: q.items.skip(1).push(p),
            dropped: (q.dropped + 1) as u64,
            conflicts: q.conflicts,
        }) && q.requeued(p) == (QueueModel {
            items: seq![p] + q.items.skip(1),
            dropped: (q.dropped + 1) as u64,
            conflicts: q.conflicts,
        }),
        counted(q.dropped) == q.dropped + 1,
{
    assert(q.items.len() > 0 ==> q.items.drop_first() =~= q.items.skip(1));
}

} // verus!
