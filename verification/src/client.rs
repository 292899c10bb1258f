//! The client's side of requests: the channels on which responses come back to the callbacks
//! that wait for them, and what polling for a response can find.
use vstd::prelude::*;
use std::collections::HashMap;
use vstd::set_lib::{set_int_range, lemma_int_range, lemma_len_subset, lemma_map_size_bound};
use crate::protocol::Channel;

verus! {

/// Why polling for a response gave no value.
pub enum PollError<E> {
    /// The channel has been closed. No value will ever be yielded.
    Closed,
    /// The value has not arrived yet.
    Empty,
    /// Failed to extract the response.
    Extract(E),
}

/// The callbacks waiting for responses, by channel, and the channel the next request gets.
pub struct CallbackTable<C> {
    callbacks: HashMap<u32, C>,
    sequence: u32,
}

/// The `n`-th channel after `start`, counting around the wrap of `u32`.
pub open spec fn channel_after(start: u32, n: int) -> u32 {
    ((start + n) % 0x1_0000_0000) as u32
}

/// How far `to` comes after `from`, counting around the wrap of `u32`.
pub open spec fn channel_distance(from: u32, to: u32) -> int {
    (to - from) % 0x1_0000_0000
}

proof fn lemma_free_channel_exists(taken: Set<u32>)
    requires
        taken.finite(),
        taken.len() < 0x1_0000_0000,
    ensures
        exists|k: u32| !taken.contains(k),
{
    if forall|k: u32| taken.contains(k) {
        let f = |k: u32| k as int;
        let ints = taken.map(f);
        lemma_map_size_bound(taken, ints, f);
        lemma_int_range(0, 0x1_0000_0000);
        assert forall|i: int| set_int_range(0, 0x1_0000_0000).contains(i) implies ints.contains(i) by {
            let k = i as u32;
            assert(taken.contains(k) && f(k) == i);
        }
        lemma_len_subset(set_int_range(0, 0x1_0000_0000), ints);
    }
}

proof fn lemma_step_closer(from: u32, to: u32)
    requires
        from != to,
    ensures
        channel_distance(channel_after(from, 1), to) == channel_distance(from, to) - 1,
        channel_distance(from, to) > 0,
{
    let d = channel_distance(from, to);
    let n = (from + 1) % 0x1_0000_0000;
    vstd::arithmetic::div_mod::lemma_fundamental_div_mod((to - from) as int, 0x1_0000_0000);
    vstd::arithmetic::div_mod::lemma_fundamental_div_mod((from + 1) as int, 0x1_0000_0000);
    let q1 = (to - from) / 0x1_0000_0000;
    let q2 = (from + 1) / 0x1_0000_0000;
    assert(d != 0) by {
        if d == 0 {
            assert(to - from == 0x1_0000_0000 * q1);
            assert(q1 == 0) by (nonlinear_arith)
                requires
                    to - from == 0x1_0000_0000 * q1,
                    -0x1_0000_0000 < to - from < 0x1_0000_0000,
            ;
        }
    }
    assert(to - n == (d - 1) + 0x1_0000_0000 * (q1 + q2)) by (nonlinear_arith)
        requires
            to - from == 0x1_0000_0000 * q1 + d,
            from + 1 == 0x1_0000_0000 * q2 + n,
    ;
    vstd::arithmetic::div_mod::lemma_mod_multiples_vanish(q1 + q2, d - 1, 0x1_0000_0000);
    vstd::arithmetic::div_mod::lemma_small_mod((d - 1) as nat, 0x1_0000_0000);
}

proof fn lemma_after_step(start: u32, n: int)
    requires
        0 <= n,
    ensures
        channel_after(channel_after(start, n), 1) == channel_after(start, n + 1),
{
    vstd::arithmetic::div_mod::lemma_add_mod_noop(start + n, 1, 0x1_0000_0000);
    vstd::arithmetic::div_mod::lemma_small_mod(1, 0x1_0000_0000);
}

proof fn lemma_distance_after(start: u32, n: int)
    requires
        0 <= n < 0x1_0000_0000,
    ensures
        channel_distance(start, channel_after(start, n)) == n,
{
    let e = (start + n) % 0x1_0000_0000;
    vstd::arithmetic::div_mod::lemma_fundamental_div_mod((start + n) as int, 0x1_0000_0000);
    let q = (start + n) / 0x1_0000_0000;
    assert(e - start == n - 0x1_0000_0000 * q);
    vstd::arithmetic::div_mod::lemma_mod_multiples_vanish(-q, n, 0x1_0000_0000);
    assert(n - 0x1_0000_0000 * q == n + 0x1_0000_0000 * (-q)) by (nonlinear_arith);
    vstd::arithmetic::div_mod::lemma_small_mod(n as nat, 0x1_0000_0000);
}

impl<C> CallbackTable<C> {
    /// The callbacks, by channel number.
    pub closed spec fn callbacks(&self) -> Map<u32, C> {
        self.callbacks@
    }

    /// The channel the next request gets.
    pub closed spec fn next_channel(&self) -> u32 {
        self.sequence
    }

    /// The table is well formed: the channel the next request gets is free.
    pub open spec fn wf(&self) -> bool {
        !self.callbacks().contains_key(self.next_channel())
    }

    /// A table with no callback, whose first channel is 0.
    pub fn new() -> (t: CallbackTable<C>)
        ensures
            t.wf(),
            t.callbacks() == Map::<u32, C>::empty(),
            t.next_channel() == 0,
    {
        CallbackTable { callbacks: HashMap::new(), sequence: 0 }
    }

    /// The number of callbacks waiting.
    pub fn len(&self) -> (n: usize)
        ensures
            n == self.callbacks().len(),
    {
        broadcast use vstd::std_specs::hash::group_hash_axioms;
        self.callbacks.len()
    }

    /// Set up a callback for a request: it waits on the next channel, and the next channel
    /// becomes the first free one after it.
    pub fn setup_callback(&mut self, callback: C) -> (channel: Channel)
        requires
            old(self).wf(),
            old(self).callbacks().len() < u32::MAX,
        ensures
            final(self).wf(),
            channel.0 == old(self).next_channel(),
            final(self).callbacks() == old(self).callbacks().insert(channel.0, callback),
            forall|t: int|
                0 <= t < channel_distance(channel.0, final(self).next_channel()) ==> final(self).callbacks().contains_key(
                    #[trigger] channel_after(channel.0, t),
                ),
    {
        broadcast use vstd::std_specs::hash::group_hash_axioms;
        let channel = self.sequence;
        self.callbacks.insert(channel, callback);
        let ghost taken = self.callbacks@;
        proof {
            assert(taken.dom() =~= old(self).callbacks().dom().insert(channel));
            lemma_free_channel_exists(taken.dom());
        }
        let ghost free = choose|k: u32| !taken.dom().contains(k);
        let ghost mut steps: int = 0;
        proof {
            vstd::arithmetic::div_mod::lemma_small_mod(channel as nat, 0x1_0000_0000);
        }
        while self.callbacks.contains_key(&self.sequence)
            invariant
                self.callbacks@ == taken,
                !taken.contains_key(free),
                taken.contains_key(channel),
                0 <= steps,
                self.sequence == channel_after(channel, steps),
                channel_distance(self.sequence, free) == channel_distance(channel, free) - steps,
                forall|t: int| 0 <= t < steps ==> taken.contains_key(#[trigger] channel_after(channel, t)),
            decreases channel_distance(self.sequence, free),
        {
            proof {
                lemma_step_closer(self.sequence, free);
                lemma_after_step(channel, steps);
            }
            self.sequence = self.sequence.wrapping_add(1);
            proof {
                steps = steps + 1;
            }
        }
        proof {
            lemma_distance_after(channel, steps);
        }
        Channel(channel)
    }

    /// Take the callback waiting on `channel`, if any.
    pub fn take_callback(&mut self, channel: Channel) -> (callback: Option<C>)
        requires
            old(self).wf(),
        ensures
            final(self).wf(),
            final(self).next_channel() == old(self).next_channel(),
            final(self).callbacks() == old(self).callbacks().remove(channel.0),
            callback == (if old(self).callbacks().contains_key(channel.0) {
                Some(old(self).callbacks()[channel.0])
            } else {
                None::<C>
            }),
    {
        broadcast use vstd::std_specs::hash::group_hash_axioms;
        self.callbacks.remove(&channel.0)
    }
}

} // verus!
