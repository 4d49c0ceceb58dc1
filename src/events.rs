use vstd::prelude::*;
use crate::id::ID;

verus! {

broadcast use vstd::seq_lib::group_seq_lib_default;

/// One listener's handler for one event kind of one emitter.
#[derive(Clone, Copy, Debug)]
pub struct Subscription<H> {
    pub emitter: ID,
    pub event: u32,
    pub listener: ID,
    pub handler: H,
}

/// Keeps a subscription to events of kind `event` from `emitter`.
pub open spec fn subscribed_to<H>(emitter: ID, event: u32) -> spec_fn(Subscription<H>) -> bool {
    |s: Subscription<H>| s.emitter == emitter && s.event == event
}

/// (listener, handler) of a subscription.
pub open spec fn target_of<H>() -> spec_fn(Subscription<H>) -> (ID, H) {
    |s: Subscription<H>| (s.listener, s.handler)
}

/// The handlers an emission of kind `event` from `emitter` reaches, in
/// order of subscription.
pub open spec fn reached<H>(subs: Seq<Subscription<H>>, emitter: ID, event: u32) -> Seq<(ID, H)> {
    subs.filter(subscribed_to(emitter, event)).map_values(target_of())
}

/// Subscriptions by (emitter, event kind), kept in the order they were made.
pub struct EventQueue<H> {
    pub subscriptions: Vec<Subscription<H>>,
}

impl<H: Copy> EventQueue<H> {
    pub fn new() -> (r: EventQueue<H>)
        ensures
            r.subscriptions@ == Seq::<Subscription<H>>::empty(),
    {
        EventQueue { subscriptions: Vec::new() }
    }

    /// Registers `handler` of `listener` for events of kind `event` from
    /// `emitter`. Nothing is deduplicated.
    pub fn subscribe(&mut self, emitter: ID, listener: ID, event: u32, handler: H)
        ensures
            final(self).subscriptions@ == old(self).subscriptions@.push(
                Subscription { emitter, event, listener, handler },
            ),
    {
        self.subscriptions.push(Subscription { emitter, event, listener, handler });
    }

    /// The (listener, handler) pairs that an event of kind `event` from
    /// `emitter` reaches, in order of subscription.
    pub fn get_listeners(&self, emitter: ID, event: u32) -> (r: Vec<(ID, H)>)
        ensures
            r@ == reached(self.subscriptions@, emitter, event),
    {
        let mut out: Vec<(ID, H)> = Vec::new();
        let n = self.subscriptions.len();
        let mut i: usize = 0;
        while i < n
            invariant
                n == self.subscriptions@.len(),
                0 <= i <= n,
                out@ == reached(self.subscriptions@.subrange(0, i as int), emitter, event),
            decreases n - i,
        {
            let s = self.subscriptions[i];
            let ghost pre = self.subscriptions@.subrange(0, i as int).filter(subscribed_to(emitter, event));
            proof {
                assert(self.subscriptions@.subrange(0, i + 1) =~= self.subscriptions@.subrange(0, i as int).push(s));
                self.subscriptions@.subrange(0, i as int).lemma_filter_push(s, subscribed_to(emitter, event));
            }
            if s.emitter == emitter && s.event == event {
                proof {
                    assert(pre.push(s).map_values(target_of()) =~= pre.map_values(target_of()).push((s.listener, s.handler)));
                }
                out.push((s.listener, s.handler));
            }
            i = i + 1;
        }
        proof {
            assert(self.subscriptions@.subrange(0, n as int) =~= self.subscriptions@);
        }
        out
    }
}

/// Subscribing a handler and then emitting the matching event reaches that
/// handler once more than before, after every handler subscribed earlier;
/// emissions of other kinds or from other emitters are unaffected.
pub proof fn lemma_emit_after_subscribe<H>(subs: Seq<Subscription<H>>, s: Subscription<H>, emitter: ID, event: u32)
    ensures
        reached(subs.push(s), s.emitter, s.event) == reached(subs, s.emitter, s.event).push((s.listener, s.handler)),
        (emitter != s.emitter || event != s.event) ==> reached(subs.push(s), emitter, event) == reached(subs, emitter, event),
{
    subs.lemma_filter_push(s, subscribed_to(s.emitter, s.event));
    subs.lemma_filter_push(s, subscribed_to(emitter, event));
    let pre = subs.filter(subscribed_to::<H>(s.emitter, s.event));
    assert(pre.push(s).map_values(target_of()) =~= pre.map_values(target_of()).push((s.listener, s.handler)));
}

} // verus!
