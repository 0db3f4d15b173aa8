use vstd::prelude::*;

verus! {

/// What one call of `receive_next` yields: the next payload in publish
/// order, a lag signal naming how many payloads were missed, or nothing
/// yet (a live system suspends here until the next publish).
pub enum RecvOutcome {
    Payload(String),
    Lagged(usize),
    Empty,
}

/// The in-memory broadcast hub: one publish endpoint, many subscribers.
/// It records every payload published, in order; a subscription is a
/// cursor into that record. Delivery is bounded: a subscriber that falls
/// more than `capacity` payloads behind loses the oldest pending ones
/// and is handed an explicit lag signal instead, after which delivery
/// resumes in publish order.
pub struct Hub {
    log: Vec<String>,
    capacity: usize,
    subscribers: usize,
}

/// A receive-only view onto the hub's stream: the position of the next
/// payload this subscriber has not yet consumed.
pub struct Subscription {
    cursor: usize,
}

impl Hub {
    /// All payloads ever published, in publish order.
    pub closed spec fn log(&self) -> Seq<Seq<char>> {
        self.log@.map_values(|s: String| s@)
    }

    /// How far a subscriber may fall behind before it lags.
    pub closed spec fn capacity(&self) -> nat {
        self.capacity as nat
    }

    /// How many subscriptions have been handed out.
    pub closed spec fn subscriber_count(&self) -> nat {
        self.subscribers as nat
    }

    /// A fresh hub with no traffic and no subscribers.
    pub fn new(capacity: usize) -> (h: Hub)
        requires
            capacity >= 1,
        ensures
            h.log() == Seq::<Seq<char>>::empty(),
            h.capacity() == capacity,
            h.subscriber_count() == 0,
    {
        let h = Hub { log: Vec::new(), capacity, subscribers: 0 };
        proof {
            assert(h.log() =~= Seq::<Seq<char>>::empty());
        }
        h
    }

    /// Push one payload to every current subscriber. Never blocks and
    /// never fails: with no subscribers the payload is simply dropped,
    /// a normal transient state. Returns the number of subscribers the
    /// payload was offered to.
    pub fn publish(&mut self, payload: String) -> (n: usize)
        ensures
            final(self).log() == old(self).log().push(payload@),
            final(self).capacity() == old(self).capacity(),
            final(self).subscriber_count() == old(self).subscriber_count(),
            n == old(self).subscriber_count(),
    {
        let n = self.subscribers;
        let ghost prev = self.log@;
        self.log.push(payload);
        proof {
            assert(self.log() =~= prev.map_values(|s: String| s@).push(payload@));
        }
        n
    }

    /// How many subscriptions have been handed out so far.
    pub fn subscriber_total(&self) -> (n: usize)
        ensures
            n == self.subscriber_count(),
    {
        self.subscribers
    }

    /// A fresh subscription: it will see every payload published after
    /// this call and nothing published before it (no replay).
    pub fn subscribe(&mut self) -> (s: Subscription)
        requires
            old(self).subscriber_count() < usize::MAX,
        ensures
            final(self).log() == old(self).log(),
            final(self).capacity() == old(self).capacity(),
            final(self).subscriber_count() == old(self).subscriber_count() + 1,
            s.cursor() == old(self).log().len(),
    {
        self.subscribers = self.subscribers + 1;
        Subscription { cursor: self.log.len() }
    }
}

impl Subscription {
    /// The position of the next payload to deliver.
    pub closed spec fn cursor(&self) -> nat {
        self.cursor as nat
    }

    /// A subscription never points past the hub's record.
    pub open spec fn valid_for(&self, hub: &Hub) -> bool {
        self.cursor() <= hub.log().len()
    }

    /// The payloads published but not yet consumed here, oldest first.
    pub open spec fn backlog(&self, hub: &Hub) -> Seq<Seq<char>>
        recommends
            self.valid_for(hub),
    {
        hub.log().subrange(self.cursor() as int, hub.log().len() as int)
    }

    /// Whether this subscription belongs to the given hub's record.
    pub fn is_valid_for(&self, hub: &Hub) -> (r: bool)
        ensures
            r == self.valid_for(hub),
    {
        self.cursor <= hub.log.len()
    }

    /// Deliver the next pending payload, in publish order. A subscriber
    /// more than `capacity` payloads behind is told how many it missed
    /// and is moved forward to the oldest retained payload, so that
    /// subsequent calls resume in-order delivery (the lag signal of the
    /// bounded-buffer policy). With nothing pending, `Empty` comes back
    /// and the cursor does not move.
    pub fn receive_next(&mut self, hub: &Hub) -> (r: RecvOutcome)
        requires
            old(self).valid_for(hub),
        ensures
            final(self).valid_for(hub),
            old(self).cursor() == hub.log().len() ==> r is Empty
                && final(self).cursor() == old(self).cursor(),
            old(self).cursor() < hub.log().len()
                && hub.log().len() - old(self).cursor() <= hub.capacity() ==> {
                &&& r matches RecvOutcome::Payload(p) && p@ == hub.log()[old(self).cursor() as int]
                &&& final(self).cursor() == old(self).cursor() + 1
            },
            hub.log().len() - old(self).cursor() > hub.capacity() ==> {
                &&& r matches RecvOutcome::Lagged(m)
                    && m == hub.log().len() - old(self).cursor() - hub.capacity()
                &&& final(self).cursor() + hub.capacity() == hub.log().len()
            },
    {
        let n = hub.log.len();
        if self.cursor == n {
            RecvOutcome::Empty
        } else if n - self.cursor <= hub.capacity {
            let p = hub.log[self.cursor].clone();
            self.cursor = self.cursor + 1;
            RecvOutcome::Payload(p)
        } else {
            let missed = n - self.cursor - hub.capacity;
            self.cursor = n - hub.capacity;
            RecvOutcome::Lagged(missed)
        }
    }

    /// Fan-out completeness: a subscriber that has not lagged receives
    /// exactly the payloads published since its cursor, one copy of
    /// each, in publish order; afterwards it is fully caught up.
    pub fn receive_available(&mut self, hub: &Hub) -> (out: Vec<String>)
        requires
            old(self).valid_for(hub),
            hub.log().len() - old(self).cursor() <= hub.capacity(),
        ensures
            final(self).cursor() == hub.log().len(),
            out@.map_values(|s: String| s@)
                == hub.log().subrange(old(self).cursor() as int, hub.log().len() as int),
    {
        let mut out: Vec<String> = Vec::new();
        loop
            invariant
                self.valid_for(hub),
                old(self).cursor() <= self.cursor(),
                hub.log().len() - self.cursor() <= hub.capacity(),
                out@.map_values(|s: String| s@)
                    == hub.log().subrange(old(self).cursor() as int, self.cursor() as int),
            decreases hub.log().len() - self.cursor(),
        {
            let ghost pre = out@.map_values(|s: String| s@);
            match self.receive_next(hub) {
                RecvOutcome::Payload(p) => {
                    out.push(p);
                    proof {
                        assert(out@.map_values(|s: String| s@) =~= pre.push(p@));
                        assert(out@.map_values(|s: String| s@) =~= hub.log().subrange(
                            old(self).cursor() as int,
                            self.cursor() as int,
                        ));
                    }
                },
                RecvOutcome::Lagged(_) => {
                    proof {
                        assert(false);
                    }
                },
                RecvOutcome::Empty => {
                    return out;
                },
            }
        }
    }
}

/// Echo inclusion: a publish reaches every subscription attached before
/// it — including one created from the very connection that originated
/// the payload, which is therefore echoed back to its sender. After
/// appending `p`, the backlog of any valid cursor `c` ends with `p`, and
/// a subscription that was fully caught up has exactly `p` pending.
pub proof fn lemma_echo_inclusion(log: Seq<Seq<char>>, p: Seq<char>, c: nat)
    requires
        c <= log.len(),
    ensures
        log.push(p).subrange(c as int, log.push(p).len() as int).last() == p,
        log.push(p).subrange(c as int, log.push(p).len() as int).len() == log.len() + 1 - c,
        c == log.len() ==> log.push(p).subrange(c as int, log.push(p).len() as int) == seq![p],
{
    let full = log.push(p);
    assert(full.subrange(c as int, full.len() as int).last() == full[full.len() - 1]);
    if c == log.len() {
        assert(full.subrange(c as int, full.len() as int) =~= seq![p]);
    }
}

/// Lag recovery: for a subscriber at cursor `c` that has fallen more
/// than `k` behind, the pending payloads split into the oldest ones,
/// which are dropped and counted by the lag signal, and the `k` most
/// recent, which are still delivered afterwards in publish order.
pub proof fn lemma_lag_recovery(log: Seq<Seq<char>>, c: nat, k: nat)
    requires
        c <= log.len(),
        log.len() - c > k,
    ensures
        log.len() - c - k >= 1,
        log.subrange(c as int, log.len() as int) == log.subrange(c as int, (log.len() - k) as int)
            + log.subrange((log.len() - k) as int, log.len() as int),
{
    assert(log.subrange(c as int, log.len() as int) =~= log.subrange(
        c as int,
        (log.len() - k) as int,
    ) + log.subrange((log.len() - k) as int, log.len() as int));
}

} // verus!
