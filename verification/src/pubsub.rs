//! Pub/sub fan-out.
//!
//! Each channel carries its current subscribers; each subscriber owns a
//! bounded message buffer. Publishing never waits: a full buffer drops its
//! oldest message and the subscriber is marked lagged, to be told so on its
//! next receive and then resume from what remains. A subscriber therefore
//! sees exactly the messages published after it subscribed, minus what lag
//! dropped, in publish order.

use vstd::prelude::*;

verus! {

/// One subscriber: its handle and its bounded buffer of pending messages.
#[derive(Debug)]
pub struct Subscriber {
    pub id: u64,
    pub queue: Vec<Vec<u8>>,
    pub lagged: bool,
}

/// One channel: its name and its current subscribers.
#[derive(Debug)]
pub struct Channel {
    pub name: Vec<u8>,
    pub subs: Vec<Subscriber>,
}

/// The messages of a buffer, as byte sequences, oldest first.
pub open spec fn queue_model(q: Seq<Vec<u8>>) -> Seq<Seq<u8>> {
    Seq::new(q.len(), |i: int| q[i]@)
}

/// First channel named `name`.
pub open spec fn chan_get(chs: Seq<Channel>, name: Seq<u8>) -> Option<Channel>
    decreases chs.len(),
{
    if chs.len() == 0 {
        None
    } else if chs[0].name@ == name {
        Some(chs[0])
    } else {
        chan_get(chs.drop_first(), name)
    }
}

/// A buffer after one delivery: append when there is room, otherwise drop
/// the oldest message and append.
pub open spec fn pushed_queue(q: Seq<Seq<u8>>, m: Seq<u8>, cap: int) -> Seq<Seq<u8>> {
    if q.len() < cap {
        q.push(m)
    } else {
        q.drop_first().push(m)
    }
}

/// One subscriber after one delivery.
pub open spec fn sub_received(s: Subscriber, s2: Subscriber, m: Seq<u8>, cap: int) -> bool {
    &&& s2.id == s.id
    &&& queue_model(s2.queue@) == pushed_queue(queue_model(s.queue@), m, cap)
    &&& s2.lagged == (s.lagged || queue_model(s.queue@).len() >= cap)
}

/// A channel after one publish: every subscriber present at publish time
/// received the message; nobody joined or left.
pub open spec fn published(
    before: Option<Channel>,
    after: Option<Channel>,
    m: Seq<u8>,
    cap: int,
) -> bool {
    match before {
        None => after is None,
        Some(c) => after matches Some(c2) && c2.name@ == c.name@ && c2.subs@.len()
            == c.subs@.len() && forall|i: int|
            0 <= i < c.subs@.len() ==> sub_received(#[trigger] c.subs@[i], c2.subs@[i], m, cap),
    }
}

pub open spec fn subs_wf(subs: Seq<Subscriber>, next_id: u64, cap: int) -> bool {
    &&& (forall|i: int| 0 <= i < subs.len() ==> (#[trigger] subs[i]).id < next_id)
    &&& (forall|i: int, j: int|
        0 <= i < j < subs.len() ==> (#[trigger] subs[i]).id != (#[trigger] subs[j]).id)
    &&& (forall|i: int| 0 <= i < subs.len() ==> (#[trigger] subs[i]).queue@.len() <= cap)
}

/// What one receive returns.
#[derive(Debug)]
pub enum RecvOutcome {
    /// The oldest pending message.
    Msg(Vec<u8>),
    /// Nothing pending; wait for a publish.
    Empty,
    /// The buffer overflowed since the last receive; messages were lost.
    /// The subscriber resumes from what remains.
    Lagged,
    /// No such channel or subscriber.
    Closed,
}

/// The channel registry with per-subscriber bounded buffers.
#[derive(Debug)]
pub struct PubSub {
    channels: Vec<Channel>,
    next_sub_id: u64,
    capacity: usize,
}

/// A subscriber present when a message is published receives it: after the
/// publish, the message stands last in that subscriber's buffer. One that
/// subscribes later starts with an empty buffer, so it holds nothing
/// published before (see `PubSub::subscribe`).
pub proof fn lemma_publish_reaches_existing_subscribers(
    before: Channel,
    after: Channel,
    m: Seq<u8>,
    cap: int,
    i: int,
)
    requires
        published(Some(before), Some(after), m, cap),
        0 <= i < before.subs@.len(),
        cap >= 1,
    ensures
        after.subs@[i].id == before.subs@[i].id,
        queue_model(after.subs@[i].queue@).len() >= 1,
        queue_model(after.subs@[i].queue@).last() == m,
{
    assert(sub_received(before.subs@[i], after.subs@[i], m, cap));
}

proof fn lemma_chan_get_props(chs: Seq<Channel>, n: Seq<u8>)
    ensures
        (chan_get(chs, n) is None) <==> (forall|i: int|
            0 <= i < chs.len() ==> (#[trigger] chs[i]).name@ != n),
    decreases chs.len(),
{
    if chs.len() > 0 {
        lemma_chan_get_props(chs.drop_first(), n);
        if chs[0].name@ != n {
            if chan_get(chs, n) is None {
                assert forall|i: int| 0 <= i < chs.len() implies (#[trigger] chs[i]).name@ != n by {
                    if i > 0 {
                        assert(chs.drop_first()[i - 1] == chs[i]);
                    }
                }
            } else {
                let i = choose|i: int|
                    0 <= i < chs.drop_first().len() && (#[trigger] chs.drop_first()[i]).name@ == n;
                assert(chs[i + 1].name@ == n);
            }
        }
    }
}

proof fn lemma_chan_get_first(chs: Seq<Channel>, n: Seq<u8>, i: int)
    requires
        0 <= i < chs.len(),
        chs[i].name@ == n,
        forall|x: int| 0 <= x < i ==> (#[trigger] chs[x]).name@ != n,
    ensures
        chan_get(chs, n) == Some(chs[i]),
    decreases chs.len(),
{
    if i > 0 {
        assert forall|x: int| 0 <= x < i - 1 implies (#[trigger] chs.drop_first()[x]).name@ != n by {
            assert(chs.drop_first()[x] == chs[x + 1]);
        }
        assert(chs.drop_first()[i - 1] == chs[i]);
        lemma_chan_get_first(chs.drop_first(), n, i - 1);
    }
}

proof fn lemma_chan_get_update(chs: Seq<Channel>, i: int, c2: Channel, n: Seq<u8>)
    requires
        0 <= i < chs.len(),
        c2.name@ == chs[i].name@,
        forall|x: int, y: int|
            0 <= x < y < chs.len() ==> (#[trigger] chs[x]).name@ != (#[trigger] chs[y]).name@,
    ensures
        chan_get(chs.update(i, c2), n) == (if n == c2.name@ {
            Some(c2)
        } else {
            chan_get(chs, n)
        }),
    decreases chs.len(),
{
    if i == 0 {
        assert(chs.update(0, c2)[0] == c2);
        assert(chs.update(0, c2).drop_first() =~= chs.drop_first());
        if n == c2.name@ {
        } else {
        }
        if chs[0].name@ == n && n != c2.name@ {
            assert(false);
        }
    } else {
        assert(chs.update(i, c2)[0] == chs[0]);
        assert(chs.update(i, c2).drop_first() =~= chs.drop_first().update(i - 1, c2));
        assert(chs.drop_first()[i - 1] == chs[i]);
        assert forall|x: int, y: int|
            0 <= x < y < chs.drop_first().len() implies (#[trigger] chs.drop_first()[x]).name@ != (
        #[trigger] chs.drop_first()[y]).name@ by {
            assert(chs.drop_first()[x] == chs[x + 1]);
            assert(chs.drop_first()[y] == chs[y + 1]);
        }
        lemma_chan_get_update(chs.drop_first(), i - 1, c2, n);
        if chs[0].name@ == c2.name@ {
            assert(false);
        }
    }
}

proof fn lemma_chan_get_push(chs: Seq<Channel>, c: Channel, n: Seq<u8>)
    ensures
        chan_get(chs.push(c), n) == (match chan_get(chs, n) {
            Some(c0) => Some(c0),
            None => if c.name@ == n {
                Some(c)
            } else {
                None
            },
        }),
    decreases chs.len(),
{
    if chs.len() == 0 {
        assert(chs.push(c)[0] == c);
        assert(chs.push(c).drop_first() =~= Seq::<Channel>::empty());
        assert(chan_get(Seq::<Channel>::empty(), n) is None);
    } else {
        assert(chs.push(c)[0] == chs[0]);
        assert(chs.push(c).drop_first() =~= chs.drop_first().push(c));
        lemma_chan_get_push(chs.drop_first(), c, n);
    }
}

fn find_chan(chs: &Vec<Channel>, name: &Vec<u8>) -> (r: Option<usize>)
    ensures
        match r {
            Some(i) => i < chs@.len() && chs@[i as int].name@ == name@ && forall|x: int|
                0 <= x < i ==> (#[trigger] chs@[x]).name@ != name@,
            None => forall|x: int| 0 <= x < chs@.len() ==> (#[trigger] chs@[x]).name@ != name@,
        },
{
    let mut i: usize = 0;
    while i < chs.len()
        invariant
            i <= chs@.len(),
            forall|x: int| 0 <= x < i ==> (#[trigger] chs@[x]).name@ != name@,
        decreases chs@.len() - i,
    {
        let c = &chs[i];
        if crate::bytes_eq(&c.name, name) {
            return Some(i);
        }
        i = i + 1;
    }
    None
}

fn find_sub(subs: &Vec<Subscriber>, id: u64) -> (r: Option<usize>)
    ensures
        match r {
            Some(i) => i < subs@.len() && subs@[i as int].id == id,
            None => forall|x: int| 0 <= x < subs@.len() ==> (#[trigger] subs@[x]).id != id,
        },
{
    let mut i: usize = 0;
    while i < subs.len()
        invariant
            i <= subs@.len(),
            forall|x: int| 0 <= x < i ==> (#[trigger] subs@[x]).id != id,
        decreases subs@.len() - i,
    {
        if subs[i].id == id {
            return Some(i);
        }
        i = i + 1;
    }
    None
}

/// Deliver one message to every subscriber of one channel.
fn deliver(subs: &mut Vec<Subscriber>, msg: &Vec<u8>, cap: usize)
    requires
        cap >= 1,
        forall|i: int| 0 <= i < old(subs)@.len() ==> (#[trigger] old(subs)@[i]).queue@.len() <= cap,
    ensures
        final(subs)@.len() == old(subs)@.len(),
        forall|i: int|
            0 <= i < old(subs)@.len() ==> sub_received(
                #[trigger] old(subs)@[i],
                final(subs)@[i],
                msg@,
                cap as int,
            ),
{
    let mut j: usize = 0;
    while j < subs.len()
        invariant
            j <= subs@.len(),
            cap >= 1,
            subs@.len() == old(subs)@.len(),
            forall|i: int|
                0 <= i < j ==> sub_received(
                    #[trigger] old(subs)@[i],
                    subs@[i],
                    msg@,
                    cap as int,
                ),
            forall|i: int| j <= i < subs@.len() ==> #[trigger] subs@[i] == old(subs)@[i],
        decreases subs@.len() - j,
    {
        let m = crate::clone_bytes(msg);
        let ghost before = subs@;
        let s = &mut subs[j];
        let ghost s0 = *s;
        if s.queue.len() < cap {
            s.queue.push(m);
            proof {
                assert(queue_model(s.queue@) =~= queue_model(s0.queue@).push(msg@));
            }
        } else {
            let _ = s.queue.remove(0);
            s.queue.push(m);
            s.lagged = true;
            proof {
                assert(s0.queue@.remove(0) =~= s0.queue@.drop_first());
                assert(queue_model(s0.queue@.drop_first()).push(msg@) =~= queue_model(
                    s0.queue@.drop_first().push(m),
                ));
                assert(queue_model(s0.queue@.drop_first()) =~= queue_model(
                    s0.queue@,
                ).drop_first());
                assert(queue_model(s.queue@) =~= queue_model(s0.queue@).drop_first().push(msg@));
            }
        }
        proof {
            assert(subs@ =~= before.update(j as int, *s));
            assert(sub_received(old(subs)@[j as int], subs@[j as int], msg@, cap as int));
        }
        j = j + 1;
    }
}

/// What one `unsubscribe` call did: the named subscriber left `channel`
/// if it was there, and nothing else moved.
pub open spec fn unsub_post(pre: PubSub, post: PubSub, channel: Seq<u8>, id: u64, removed: bool) -> bool {
    match pre.spec_chan(channel) {
        Some(c) => {
            if exists|x: int| 0 <= x < c.subs@.len() && (#[trigger] c.subs@[x]).id == id {
                removed && post.spec_sub_count(channel) == c.subs@.len() - 1
            } else {
                !removed && post.spec_chan(channel) == pre.spec_chan(channel)
            }
        },
        None => !removed && post.spec_chan(channel) is None,
    }
}

impl PubSub {
    pub closed spec fn spec_channels(&self) -> Seq<Channel> {
        self.channels@
    }

    pub closed spec fn spec_capacity(&self) -> int {
        self.capacity as int
    }

    pub closed spec fn spec_next_sub_id(&self) -> u64 {
        self.next_sub_id
    }

    /// The channel named `name`, if present.
    pub open spec fn spec_chan(&self, name: Seq<u8>) -> Option<Channel> {
        chan_get(self.spec_channels(), name)
    }

    /// Number of current subscribers of `name`; 0 when the channel is
    /// absent.
    pub open spec fn spec_sub_count(&self, name: Seq<u8>) -> int {
        match self.spec_chan(name) {
            Some(c) => c.subs@.len() as int,
            None => 0,
        }
    }

    pub open spec fn wf(&self) -> bool {
        &&& self.spec_capacity() >= 1
        &&& (forall|x: int, y: int|
            0 <= x < y < self.spec_channels().len() ==> (#[trigger] self.spec_channels()[x]).name@
                != (#[trigger] self.spec_channels()[y]).name@)
        &&& (forall|x: int|
            0 <= x < self.spec_channels().len() ==> subs_wf(
                (#[trigger] self.spec_channels()[x]).subs@,
                self.spec_next_sub_id(),
                self.spec_capacity(),
            ))
    }

    /// An empty registry whose buffers hold `capacity` messages each.
    pub fn new(capacity: usize) -> (r: PubSub)
        requires
            capacity >= 1,
        ensures
            r.wf(),
            r.spec_capacity() == capacity,
            r.spec_next_sub_id() == 0,
            forall|n: Seq<u8>| #[trigger] r.spec_chan(n) is None,
    {
        PubSub { channels: Vec::new(), next_sub_id: 0, capacity }
    }

    /// How many subscribers `channel` has right now.
    pub fn subscriber_count(&self, channel: &Vec<u8>) -> (r: usize)
        ensures
            r == self.spec_sub_count(channel@),
    {
        match find_chan(&self.channels, channel) {
            Some(i) => {
                proof {
                    lemma_chan_get_first(self.channels@, channel@, i as int);
                }
                self.channels[i].subs.len()
            },
            None => {
                proof {
                    lemma_chan_get_props(self.channels@, channel@);
                }
                0
            },
        }
    }

    /// Deliver `msg` to every current subscriber of `channel` and return
    /// how many there were. With no channel or no subscribers the count is
    /// 0 and nothing changes; the publisher never waits either way.
    pub fn publish(&mut self, channel: &Vec<u8>, msg: &Vec<u8>) -> (count: usize)
        requires
            old(self).wf(),
        ensures
            final(self).wf(),
            count == old(self).spec_sub_count(channel@),
            final(self).spec_capacity() == old(self).spec_capacity(),
            final(self).spec_next_sub_id() == old(self).spec_next_sub_id(),
            forall|n: Seq<u8>|
                n != channel@ ==> #[trigger] final(self).spec_chan(n) == old(self).spec_chan(n),
            published(
                old(self).spec_chan(channel@),
                final(self).spec_chan(channel@),
                msg@,
                old(self).spec_capacity(),
            ),
    {
        let cap = self.capacity;
        match find_chan(&self.channels, channel) {
            Some(i) => {
                proof {
                    lemma_chan_get_first(self.channels@, channel@, i as int);
                }
                let ghost chs0 = self.channels@;
                let ch = &mut self.channels[i];
                let ghost c0 = *ch;
                let count = ch.subs.len();
                deliver(&mut ch.subs, msg, cap);
                proof {
                    assert(subs_wf(c0.subs@, self.next_sub_id, cap as int));
                    assert forall|y: int| 0 <= y < ch.subs@.len() implies (#[trigger] ch.subs@[
                    y]).id == c0.subs@[y].id && ch.subs@[y].queue@.len() <= cap by {
                        assert(sub_received(c0.subs@[y], ch.subs@[y], msg@, cap as int));
                        assert(queue_model(ch.subs@[y].queue@).len() == ch.subs@[y].queue@.len());
                        assert(queue_model(c0.subs@[y].queue@).len() == c0.subs@[y].queue@.len());
                    }
                    assert forall|y: int, z: int|
                        0 <= y < z < ch.subs@.len() implies (#[trigger] ch.subs@[y]).id != (
                    #[trigger] ch.subs@[z]).id by {
                        assert(c0.subs@[y].id != c0.subs@[z].id);
                    }
                    assert(subs_wf(ch.subs@, self.next_sub_id, cap as int));
                    assert(self.channels@ =~= chs0.update(i as int, *ch));
                    assert forall|n: Seq<u8>| true implies #[trigger] chan_get(
                        chs0.update(i as int, *ch),
                        n,
                    ) == (if n == c0.name@ {
                        Some(*ch)
                    } else {
                        chan_get(chs0, n)
                    }) by {
                        lemma_chan_get_update(chs0, i as int, *ch, n);
                    }
                }
                count
            },
            None => {
                proof {
                    lemma_chan_get_props(self.channels@, channel@);
                }
                0
            },
        }
    }

    /// Register a new subscriber on `channel`, creating the channel if
    /// needed. The new buffer is empty: the subscriber will see exactly
    /// the messages published from now on.
    pub fn subscribe(&mut self, channel: &Vec<u8>) -> (id: u64)
        requires
            old(self).wf(),
            old(self).spec_next_sub_id() < u64::MAX,
        ensures
            final(self).wf(),
            id == old(self).spec_next_sub_id(),
            final(self).spec_next_sub_id() == old(self).spec_next_sub_id() + 1,
            final(self).spec_capacity() == old(self).spec_capacity(),
            forall|n: Seq<u8>|
                n != channel@ ==> #[trigger] final(self).spec_chan(n) == old(self).spec_chan(n),
            final(self).spec_chan(channel@) matches Some(c2) && {
                &&& c2.name@ == channel@
                &&& c2.subs@.len() == old(self).spec_sub_count(channel@) + 1
                &&& c2.subs@.last().id == id
                &&& c2.subs@.last().queue@.len() == 0
                &&& !c2.subs@.last().lagged
                &&& match old(self).spec_chan(channel@) {
                    Some(c) => forall|i: int|
                        0 <= i < c.subs@.len() ==> #[trigger] c2.subs@[i] == c.subs@[i],
                    None => true,
                }
            },
            final(self).spec_sub_count(channel@) == old(self).spec_sub_count(channel@) + 1,
    {
        let id = self.next_sub_id;
        self.next_sub_id = self.next_sub_id + 1;
        let sub = Subscriber { id, queue: Vec::new(), lagged: false };
        match find_chan(&self.channels, channel) {
            Some(i) => {
                proof {
                    lemma_chan_get_first(self.channels@, channel@, i as int);
                }
                let ghost chs0 = self.channels@;
                let ch = &mut self.channels[i];
                let ghost c0 = *ch;
                ch.subs.push(sub);
                proof {
                    assert(self.channels@ =~= chs0.update(i as int, *ch));
                    assert forall|n: Seq<u8>| true implies #[trigger] chan_get(
                        chs0.update(i as int, *ch),
                        n,
                    ) == (if n == c0.name@ {
                        Some(*ch)
                    } else {
                        chan_get(chs0, n)
                    }) by {
                        lemma_chan_get_update(chs0, i as int, *ch, n);
                    }
                }
            },
            None => {
                proof {
                    lemma_chan_get_props(self.channels@, channel@);
                }
                let ghost chs0 = self.channels@;
                let name = crate::clone_bytes(channel);
                let mut subs: Vec<Subscriber> = Vec::new();
                subs.push(sub);
                let ch = Channel { name, subs };
                proof {
                    assert forall|n: Seq<u8>| true implies #[trigger] chan_get(
                        chs0.push(ch),
                        n,
                    ) == (match chan_get(chs0, n) {
                        Some(c0) => Some(c0),
                        None => if ch.name@ == n {
                            Some(ch)
                        } else {
                            None
                        },
                    }) by {
                        lemma_chan_get_push(chs0, ch, n);
                    }
                }
                self.channels.push(ch);
            },
        }
        id
    }

    /// Remove the subscriber `id` from `channel`. Returns whether it was
    /// present; the other subscribers and channels are untouched.
    #[verifier::rlimit(60)]
    #[verifier::spinoff_prover]
    pub fn unsubscribe(&mut self, channel: &Vec<u8>, id: u64) -> (removed: bool)
        requires
            old(self).wf(),
        ensures
            final(self).wf(),
            final(self).spec_next_sub_id() == old(self).spec_next_sub_id(),
            final(self).spec_capacity() == old(self).spec_capacity(),
            forall|n: Seq<u8>|
                n != channel@ ==> #[trigger] final(self).spec_chan(n) == old(self).spec_chan(n),
            unsub_post(*old(self), *final(self), channel@, id, removed),
    {
        let ghost pre = *self;
        match find_chan(&self.channels, channel) {
            Some(i) => {
                proof {
                    lemma_chan_get_first(self.channels@, channel@, i as int);
                }
                let ghost chs0 = self.channels@;
                let ch = &mut self.channels[i];
                let ghost c0 = *ch;
                let ghost mut jx: int = 0;
                let r = match find_sub(&ch.subs, id) {
                    Some(j) => {
                        proof {
                            jx = j as int;
                        }
                        let _ = ch.subs.remove(j);
                        proof {
                            c0.subs@.remove_ensures(j as int);
                            assert(c0.subs@[j as int].id == id);
                            assert(subs_wf(c0.subs@, self.next_sub_id, self.capacity as int));
                        }
                        true
                    },
                    None => {
                        proof {
                            if exists|x: int|
                                0 <= x < c0.subs@.len() && (#[trigger] c0.subs@[x]).id == id {
                                let x = choose|x: int|
                                    0 <= x < c0.subs@.len() && (#[trigger] c0.subs@[x]).id == id;
                                assert(false);
                            }
                        }
                        false
                    },
                };
                proof {
                    assert(c0 == chs0[i as int]);
                    if r {
                        assert(chs0[i as int].subs@[jx].id == id);
                        assert(exists|x: int|
                            0 <= x < chs0[i as int].subs@.len() && (#[trigger] chs0[
                            i as int].subs@[x]).id == id);
                    } else {
                        assert forall|x: int|
                            0 <= x < chs0[i as int].subs@.len() implies (#[trigger] chs0[
                        i as int].subs@[x]).id != id by {
                            assert(c0.subs@[x].id != id);
                        }
                    }
                }
                proof {
                    assert(subs_wf(c0.subs@, self.next_sub_id, self.capacity as int));
                    assert forall|y: int, z: int|
                        0 <= y < z < ch.subs@.len() implies (#[trigger] ch.subs@[y]).id != (
                    #[trigger] ch.subs@[z]).id by {}
                    assert(subs_wf(ch.subs@, self.next_sub_id, self.capacity as int));
                    assert(self.channels@ =~= chs0.update(i as int, *ch));
                    assert forall|x: int, y: int|
                        0 <= x < y < self.channels@.len() implies (#[trigger] self.channels@[
                    x]).name@ != (#[trigger] self.channels@[y]).name@ by {
                        if x != i as int {
                            assert(self.channels@[x] == chs0[x]);
                        }
                        if y != i as int {
                            assert(self.channels@[y] == chs0[y]);
                        }
                    }
                    assert forall|x: int| 0 <= x < self.channels@.len() implies subs_wf(
                        (#[trigger] self.channels@[x]).subs@,
                        self.next_sub_id,
                        self.capacity as int,
                    ) by {
                        if x != i as int {
                            assert(self.channels@[x] == chs0[x]);
                        }
                    }
                    assert forall|n: Seq<u8>| true implies #[trigger] chan_get(
                        self.channels@,
                        n,
                    ) == (if n == c0.name@ {
                        Some(*ch)
                    } else {
                        chan_get(chs0, n)
                    }) by {
                        lemma_chan_get_update(chs0, i as int, *ch, n);
                        assert(self.channels@ == chs0.update(i as int, *ch));
                    }
                    assert(chan_get(self.channels@, channel@) == Some(*ch));
                    if r {
                        assert(ch.subs@.len() == c0.subs@.len() - 1);
                    } else {
                        assert(*ch == c0);
                        assert(chan_get(self.channels@, channel@) == Some(c0));
                    }
                    assert(chan_get(chs0, channel@) == Some(chs0[i as int]));
                    if r {
                        assert(exists|x: int|
                            0 <= x < chs0[i as int].subs@.len() && (#[trigger] chs0[
                            i as int].subs@[x]).id == id);
                        assert(match chan_get(self.channels@, channel@) {
                            Some(c2) => c2.subs@.len() as int == chs0[i as int].subs@.len() - 1,
                            None => false,
                        });
                    } else {
                        assert(!(exists|x: int|
                            0 <= x < chs0[i as int].subs@.len() && (#[trigger] chs0[
                            i as int].subs@[x]).id == id));
                        assert(chan_get(self.channels@, channel@) == chan_get(chs0, channel@));
                    }
                    assert(unsub_post(pre, *self, channel@, id, r));
                }
                r
            },
            None => {
                proof {
                    lemma_chan_get_props(self.channels@, channel@);
                    assert(unsub_post(pre, *self, channel@, id, false));
                }
                false
            },
        }
    }

    /// One receive step for subscriber `id` on `channel`: a lagged
    /// subscriber is told so once and resumes; otherwise the oldest pending
    /// message is handed out.
    pub fn recv(&mut self, channel: &Vec<u8>, id: u64) -> (r: RecvOutcome)
        requires
            old(self).wf(),
        ensures
            final(self).wf(),
            final(self).spec_next_sub_id() == old(self).spec_next_sub_id(),
            final(self).spec_capacity() == old(self).spec_capacity(),
            forall|n: Seq<u8>|
                n != channel@ ==> #[trigger] final(self).spec_chan(n) == old(self).spec_chan(n),
            match old(self).spec_chan(channel@) {
                None => r is Closed && final(self).spec_chan(channel@) is None,
                Some(c) => {
                    if exists|x: int| 0 <= x < c.subs@.len() && (#[trigger] c.subs@[x]).id == id {
                        let x = choose|x: int|
                            0 <= x < c.subs@.len() && (#[trigger] c.subs@[x]).id == id;
                        let s = c.subs@[x];
                        final(self).spec_chan(channel@) matches Some(c2) && c2.subs@.len()
                            == c.subs@.len() && (forall|y: int|
                            0 <= y < c.subs@.len() && y != x ==> #[trigger] c2.subs@[y]
                                == c.subs@[y]) && c2.subs@[x].id == s.id && {
                            if s.lagged {
                                r is Lagged && !c2.subs@[x].lagged && c2.subs@[x].queue@
                                    == s.queue@
                            } else if s.queue@.len() == 0 {
                                r is Empty && c2.subs@[x] == s
                            } else {
                                r matches RecvOutcome::Msg(m) && m@ == s.queue@[0]@
                                    && !c2.subs@[x].lagged && queue_model(c2.subs@[x].queue@)
                                    == queue_model(s.queue@).drop_first()
                            }
                        }
                    } else {
                        r is Closed && final(self).spec_chan(channel@) == old(self).spec_chan(
                            channel@,
                        )
                    }
                },
            },
    {
        match find_chan(&self.channels, channel) {
            Some(i) => {
                proof {
                    lemma_chan_get_first(self.channels@, channel@, i as int);
                }
                let ghost chs0 = self.channels@;
                let ch = &mut self.channels[i];
                let ghost c0 = *ch;
                let r = match find_sub(&ch.subs, id) {
                    Some(j) => {
                        let ghost subs0 = ch.subs@;
                        let s = &mut ch.subs[j];
                        let ghost s0 = *s;
                        let out = if s.lagged {
                            s.lagged = false;
                            RecvOutcome::Lagged
                        } else if s.queue.len() == 0 {
                            RecvOutcome::Empty
                        } else {
                            let m = s.queue.remove(0);
                            proof {
                                assert(s0.queue@.remove(0) =~= s0.queue@.drop_first());
                                assert(queue_model(s0.queue@.drop_first()) =~= queue_model(
                                    s0.queue@,
                                ).drop_first());
                            }
                            RecvOutcome::Msg(m)
                        };
                        proof {
                            assert(ch.subs@ =~= subs0.update(j as int, *s));
                            // `j` is a witness; ids are unique, so it is the
                            // chosen one.
                            let x = choose|x: int|
                                0 <= x < c0.subs@.len() && (#[trigger] c0.subs@[x]).id == id;
                            if x != j as int {
                                if x < j as int {
                                    assert(c0.subs@[x].id != c0.subs@[j as int].id);
                                } else {
                                    assert(c0.subs@[j as int].id != c0.subs@[x].id);
                                }
                            }
                        }
                        out
                    },
                    None => RecvOutcome::Closed,
                };
                proof {
                    assert(self.channels@ =~= chs0.update(i as int, *ch));
                    assert forall|n: Seq<u8>| true implies #[trigger] chan_get(
                        chs0.update(i as int, *ch),
                        n,
                    ) == (if n == c0.name@ {
                        Some(*ch)
                    } else {
                        chan_get(chs0, n)
                    }) by {
                        lemma_chan_get_update(chs0, i as int, *ch, n);
                    }
                }
                r
            },
            None => {
                proof {
                    lemma_chan_get_props(self.channels@, channel@);
                }
                RecvOutcome::Closed
            },
        }
    }
}

} // verus!
