//! Topic-addressed publish/subscribe.
//!
//! The in-process transport is modelled here in full: a registry of
//! subscriber queues owned by the `Bus` value (dependency-injected, so
//! independent buses never share state). Publishing appends to every
//! queue subscribed to the topic; a bounded queue drops its oldest
//! entry first, so a lagging consumer loses messages rather than
//! blocking the publisher. A subscriber connected after a publish
//! starts from an empty queue: there is no replay.
//!
//! The `topic \0 payload` wire framing used by socket transports is a
//! pair of verified functions on bytes.

use vstd::prelude::*;

verus! {

/// Bound on a subscriber queue: beyond it the oldest entry is dropped.
pub const QUEUE_CAP: usize = 1024;

/// One subscriber: the topic it follows and its pending payloads.
pub struct SubEntry {
    pub topic: String,
    pub id: u64,
    pub queue: Vec<String>,
}

/// A handle held by the consumer of one subscription.
pub struct Subscriber {
    pub id: u64,
    pub topic: String,
}

/// A queue after one more payload: appended, with the oldest entry
/// dropped when the bound is passed.
pub open spec fn enqueue(q: Seq<String>, p: String) -> Seq<String> {
    let q2 = q.push(p);
    if q2.len() > QUEUE_CAP {
        q2.subrange(1, q2.len() as int)
    } else {
        q2
    }
}

/// Whatever stood in the queue before, the last entry after a publish
/// is the published payload: a connected subscriber that keeps up
/// observes every message with its exact bytes.
pub proof fn lemma_enqueue_observes(q: Seq<String>, p: String)
    ensures
        enqueue(q, p).len() > 0,
        enqueue(q, p).last() == p,
{
}

/// `q1` is `q0` with one more payload of content `payload` enqueued.
pub open spec fn queue_got(q0: Seq<String>, q1: Seq<String>, payload: Seq<char>) -> bool {
    exists|p: String| #[trigger] enqueue(q0, p) == q1 && p@ == payload
}

/// One publish of `payload` on `topic` between two bus states: every
/// subscriber of the topic got the payload enqueued, every other
/// subscriber is untouched.
pub open spec fn delivered(
    pre: Seq<SubEntry>,
    post: Seq<SubEntry>,
    topic: Seq<char>,
    payload: Seq<char>,
) -> bool {
    &&& post.len() == pre.len()
    &&& forall|x: int|
        0 <= x < pre.len() ==> (#[trigger] post[x]).id == pre[x].id && post[x].topic@
            == pre[x].topic@
    &&& forall|x: int|
        0 <= x < pre.len() && pre[x].topic@ == topic ==> queue_got(
            pre[x].queue@,
            (#[trigger] post[x]).queue@,
            payload,
        )
    &&& forall|x: int|
        0 <= x < pre.len() && pre[x].topic@ != topic ==> (#[trigger] post[x]).queue@
            == pre[x].queue@
}

/// The in-process fan-out bus.
pub struct Bus {
    subs: Vec<SubEntry>,
    next_id: u64,
}

impl Bus {
    /// The subscribers, in connection order.
    pub closed spec fn model(self) -> Seq<SubEntry> {
        self.subs@
    }

    /// The next unused subscriber number.
    pub closed spec fn fresh_id(self) -> u64 {
        self.next_id
    }

    /// Some subscriber carries `id`.
    pub open spec fn has_sub(self, id: u64) -> bool {
        exists|x: int| 0 <= x < self.model().len() && (#[trigger] self.model()[x]).id == id
    }

    /// The index of the subscriber with `id` (unique while well
    /// formed).
    pub open spec fn sub_index(self, id: u64) -> int {
        choose|x: int| 0 <= x < self.model().len() && (#[trigger] self.model()[x]).id == id
    }

    /// Subscriber numbers are unique and below the next unused one.
    pub open spec fn wf(self) -> bool {
        &&& forall|x: int, y: int|
            0 <= x < self.model().len() && 0 <= y < self.model().len() && x != y
                ==> self.model()[x].id != self.model()[y].id
        &&& forall|x: int|
            0 <= x < self.model().len() ==> (#[trigger] self.model()[x]).id < self.fresh_id()
    }

    /// A bus with no topics and no subscribers.
    pub fn new() -> (r: Bus)
        ensures
            r.wf(),
            r.model().len() == 0,
            r.fresh_id() == 0,
    {
        Bus { subs: Vec::new(), next_id: 0 }
    }

    /// Subscribe to `topic`. The new subscriber starts from an empty
    /// queue: nothing published earlier is replayed to it. Existing
    /// subscribers are untouched.
    pub fn connect(&mut self, topic: &str) -> (s: Subscriber)
        requires
            old(self).wf(),
            old(self).fresh_id() < u64::MAX,
        ensures
            final(self).wf(),
            s.topic@ == topic@,
            final(self).model().len() == old(self).model().len() + 1,
            forall|x: int|
                0 <= x < old(self).model().len() ==> final(self).model()[x] == old(self).model(
                )[x],
            final(self).model().last().id == s.id,
            final(self).model().last().topic@ == topic@,
            final(self).model().last().queue@ =~= Seq::<String>::empty(),
            !old(self).has_sub(s.id),
            final(self).has_sub(s.id),
            final(self).sub_index(s.id) == old(self).model().len(),
    {
        let id: u64 = self.next_id;
        assert(!old(self).has_sub(id));
        self.next_id = self.next_id + 1;
        let entry = SubEntry { topic: topic.to_owned(), id, queue: Vec::new() };
        self.subs.push(entry);
        proof {
            assert(self.model().last().id == id);
            assert(self.sub_index(id) == old(self).model().len()) by {
                let x0 = self.sub_index(id);
                assert(self.model()[old(self).model().len() as int].id == id);
                assert(0 <= x0 < self.model().len() && self.model()[x0].id == id);
                if x0 < old(self).model().len() {
                    assert(old(self).model()[x0].id == id);
                }
            }
        }
        Subscriber { id, topic: topic.to_owned() }
    }

    /// Publish `payload` to `topic`: append it to the queue of every
    /// subscriber of the topic (dropping the oldest entry of a full
    /// queue), leave every other subscriber alone. Succeeds with zero
    /// subscribers.
    pub fn publish(&mut self, topic: &str, payload: &String)
        requires
            old(self).wf(),
        ensures
            final(self).wf(),
            final(self).model().len() == old(self).model().len(),
            final(self).fresh_id() == old(self).fresh_id(),
            forall|x: int|
                0 <= x < old(self).model().len() ==> (#[trigger] final(self).model()[x]).id == old(
                    self,
                ).model()[x].id && final(self).model()[x].topic@ == old(self).model()[x].topic@,
            forall|x: int|
                0 <= x < old(self).model().len() && old(self).model()[x].topic@ == topic@ ==> (
                #[trigger] final(self).model()[x]).queue@ == enqueue(
                    old(self).model()[x].queue@,
                    *payload,
                ),
            forall|x: int|
                0 <= x < old(self).model().len() && old(self).model()[x].topic@ != topic@ ==> (
                #[trigger] final(self).model()[x]).queue@ == old(self).model()[x].queue@,
            delivered(old(self).model(), final(self).model(), topic@, payload@),
    {
        let tv = crate::text::vec_chars(topic);
        let n: usize = self.subs.len();
        let mut x: usize = 0;
        while x < n
            invariant
                x <= n,
                n == self.model().len(),
                n == old(self).model().len(),
                tv@ == topic@,
                self.fresh_id() == old(self).fresh_id(),
                forall|y: int|
                    0 <= y < n ==> (#[trigger] self.model()[y]).id == old(self).model()[y].id
                        && self.model()[y].topic@ == old(self).model()[y].topic@,
                forall|y: int|
                    0 <= y < x && old(self).model()[y].topic@ == topic@ ==> (
                    #[trigger] self.model()[y]).queue@ == enqueue(
                        old(self).model()[y].queue@,
                        *payload,
                    ),
                forall|y: int|
                    0 <= y < x && old(self).model()[y].topic@ != topic@ ==> (
                    #[trigger] self.model()[y]).queue@ == old(self).model()[y].queue@,
                forall|y: int|
                    x <= y < n ==> (#[trigger] self.model()[y]).queue@ == old(self).model(
                    )[y].queue@,
            decreases n - x,
        {
            let stv = crate::text::vec_chars(self.subs[x].topic.as_str());
            if crate::text::vec_char_eq(&stv, &tv) {
                let entry = &mut self.subs[x];
                entry.queue.push(payload.clone());
                if entry.queue.len() > QUEUE_CAP {
                    let _oldest = entry.queue.remove(0);
                }
                proof {
                    assert(self.model()[x as int].queue@ =~= enqueue(
                        old(self).model()[x as int].queue@,
                        *payload,
                    ));
                }
            }
            x = x + 1;
        }
        proof {
            assert forall|y: int, z: int|
                0 <= y < self.model().len() && 0 <= z < self.model().len() && y
                    != z implies self.model()[y].id != self.model()[z].id by {
                assert(self.model()[y].id == old(self).model()[y].id);
                assert(self.model()[z].id == old(self).model()[z].id);
            }
            assert forall|y: int|
                0 <= y < old(self).model().len() && old(self).model()[y].topic@
                    == topic@ implies queue_got(
                old(self).model()[y].queue@,
                (#[trigger] self.model()[y]).queue@,
                payload@,
            ) by {
                assert(enqueue(old(self).model()[y].queue@, *payload) == self.model()[y].queue@);
            }
        }
    }

    /// Take the next pending payload of subscriber `s`, with its
    /// topic; `None` when nothing is pending (or the handle is
    /// unknown).
    pub fn recv(&mut self, s: &Subscriber) -> (r: Option<(String, String)>)
        requires
            old(self).wf(),
        ensures
            final(self).wf(),
            !old(self).has_sub(s.id) ==> r is None && final(self).model() == old(self).model(),
            old(self).has_sub(s.id) ==> {
                let x = old(self).sub_index(s.id);
                let q = old(self).model()[x].queue@;
                &&& final(self).model().len() == old(self).model().len()
                &&& forall|y: int|
                    0 <= y < old(self).model().len() && y != x ==> final(self).model()[y] == old(
                        self,
                    ).model()[y]
                &&& final(self).model()[x].id == s.id
                &&& final(self).model()[x].topic@ == old(self).model()[x].topic@
                &&& (q.len() == 0 ==> r is None && final(self).model()[x].queue@ == q)
                &&& (q.len() > 0 ==> (r matches Some(pair) && pair.0@ == old(self).model(
                )[x].topic@ && pair.1 == q[0] && final(self).model()[x].queue@ == q.subrange(
                    1,
                    q.len() as int,
                )))
            },
            final(self).fresh_id() == old(self).fresh_id(),
    {
        let n: usize = self.subs.len();
        let mut x: usize = 0;
        while x < n
            invariant
                x <= n,
                n == self.model().len(),
                self.model() == old(self).model(),
                self.fresh_id() == old(self).fresh_id(),
                old(self).wf(),
                forall|y: int| 0 <= y < x ==> (#[trigger] self.model()[y]).id != s.id,
            decreases n - x,
        {
            if self.subs[x].id == s.id {
                let ghost pre = self.model();
                let entry = &mut self.subs[x];
                let r: Option<(String, String)> = if entry.queue.len() > 0 {
                    let p = entry.queue.remove(0);
                    let t = entry.topic.clone();
                    Some((t, p))
                } else {
                    None
                };
                proof {
                    assert(pre[x as int].id == s.id);
                    assert(old(self).sub_index(s.id) == x as int) by {
                        let x0 = old(self).sub_index(s.id);
                        assert(0 <= x0 < pre.len() && pre[x0].id == s.id);
                    }
                    if pre[x as int].queue@.len() > 0 {
                        assert(self.model()[x as int].queue@ =~= pre[x as int].queue@.subrange(
                            1,
                            pre[x as int].queue@.len() as int,
                        ));
                    }
                    assert forall|y: int, z: int|
                        0 <= y < self.model().len() && 0 <= z < self.model().len() && y
                            != z implies self.model()[y].id != self.model()[z].id by {
                        assert(self.model()[y].id == pre[y].id);
                        assert(self.model()[z].id == pre[z].id);
                    }
                }
                return r;
            }
            x = x + 1;
        }
        proof {
            if old(self).has_sub(s.id) {
                let x0 = old(self).sub_index(s.id);
                assert(0 <= x0 < self.model().len() && self.model()[x0].id == s.id);
            }
        }
        None
    }
}

/// Where the first frame separator stands in `s`, or -1 when there is
/// none.
pub open spec fn first_zero(s: Seq<u8>) -> int
    decreases s.len(),
{
    if s.len() == 0 {
        -1
    } else if s[0] == 0 {
        0
    } else {
        let r = first_zero(s.subrange(1, s.len() as int));
        if r == -1 {
            -1
        } else {
            r + 1
        }
    }
}

/// What `first_zero` means, spelled out: the position of the first
/// zero byte, if any.
pub proof fn lemma_first_zero_char(s: Seq<u8>)
    ensures
        first_zero(s) == -1 ==> forall|i: int| 0 <= i < s.len() ==> s[i] != 0,
        first_zero(s) != -1 ==> 0 <= first_zero(s) < s.len() && s[first_zero(s)] == 0 && forall|
            i: int,
        | 0 <= i < first_zero(s) ==> s[i] != 0,
    decreases s.len(),
{
    if s.len() > 0 && s[0] != 0 {
        let t = s.subrange(1, s.len() as int);
        lemma_first_zero_char(t);
        if first_zero(t) == -1 {
            assert forall|i: int| 0 <= i < s.len() implies s[i] != 0 by {
                if i > 0 {
                    assert(t[i - 1] == s[i]);
                    assert(t[i - 1] != 0);
                }
            }
        } else {
            assert(s[first_zero(s)] == t[first_zero(t)]);
            assert forall|i: int| 0 <= i < first_zero(s) implies s[i] != 0 by {
                if i > 0 {
                    assert(t[i - 1] == s[i]);
                    assert(t[i - 1] != 0);
                }
            }
        }
    }
}

/// The wire form of one message for the socket transports:
/// `topic \0 payload`.
pub fn frame_encode(topic: &Vec<u8>, payload: &Vec<u8>) -> (f: Vec<u8>)
    requires
        forall|i: int| 0 <= i < topic@.len() ==> topic@[i] != 0,
    ensures
        f@ == topic@ + seq![0u8] + payload@,
{
    let mut f: Vec<u8> = Vec::new();
    let mut i: usize = 0;
    let tn: usize = topic.len();
    while i < tn
        invariant
            i <= tn,
            tn == topic@.len(),
            f@ == topic@.subrange(0, i as int),
        decreases tn - i,
    {
        f.push(topic[i]);
        i = i + 1;
        proof {
            assert(f@ =~= topic@.subrange(0, i as int));
        }
    }
    f.push(0);
    let mut j: usize = 0;
    let pn: usize = payload.len();
    while j < pn
        invariant
            j <= pn,
            pn == payload@.len(),
            tn == topic@.len(),
            f@ == topic@.subrange(0, tn as int) + seq![0u8] + payload@.subrange(0, j as int),
        decreases pn - j,
    {
        f.push(payload[j]);
        j = j + 1;
        proof {
            assert(f@ =~= topic@.subrange(0, tn as int) + seq![0u8] + payload@.subrange(
                0,
                j as int,
            ));
        }
    }
    proof {
        assert(topic@.subrange(0, tn as int) =~= topic@);
        assert(payload@.subrange(0, pn as int) =~= payload@);
        assert(f@ =~= topic@ + seq![0u8] + payload@);
    }
    f
}

/// Split a frame at its first separator into topic and payload; a
/// frame with no separator is all payload under the empty topic.
pub fn frame_decode(f: &Vec<u8>) -> (r: (Vec<u8>, Vec<u8>))
    ensures
        first_zero(f@) == -1 ==> r.0@ =~= Seq::<u8>::empty() && r.1@ == f@,
        first_zero(f@) != -1 ==> r.0@ == f@.subrange(0, first_zero(f@)) && r.1@ == f@.subrange(
            first_zero(f@) + 1,
            f@.len() as int,
        ),
{
    proof {
        lemma_first_zero_char(f@);
    }
    let n: usize = f.len();
    let mut z: usize = 0;
    while z < n
        invariant
            z <= n,
            n == f@.len(),
            forall|i: int| 0 <= i < z ==> f@[i] != 0,
        decreases n - z,
    {
        if f[z] == 0 {
            proof {
                assert(first_zero(f@) == z as int) by {
                    lemma_first_zero_char(f@);
                    if first_zero(f@) == -1 {
                        assert(f@[z as int] != 0);
                    } else if first_zero(f@) < z as int {
                        assert(f@[first_zero(f@)] != 0);
                    } else if first_zero(f@) > z as int {
                        assert(f@[z as int] != 0);
                    }
                }
            }
            let topic = crate::text::subvec_bytes(f, 0, z);
            let payload = crate::text::subvec_bytes(f, z + 1, n);
            return (topic, payload);
        }
        z = z + 1;
    }
    proof {
        assert(first_zero(f@) == -1) by {
            lemma_first_zero_char(f@);
            if first_zero(f@) != -1 {
                assert(f@[first_zero(f@)] != 0);
            }
        }
    }
    let mut payload: Vec<u8> = Vec::new();
    let mut j: usize = 0;
    while j < n
        invariant
            j <= n,
            n == f@.len(),
            payload@ == f@.subrange(0, j as int),
        decreases n - j,
    {
        payload.push(f[j]);
        j = j + 1;
        proof {
            assert(payload@ =~= f@.subrange(0, j as int));
        }
    }
    proof {
        assert(payload@ =~= f@);
    }
    (Vec::new(), payload)
}

/// Decoding an encoded frame gives back the topic and payload exactly,
/// for any topic free of the separator byte.
pub proof fn lemma_frame_round_trip(topic: Seq<u8>, payload: Seq<u8>)
    requires
        forall|i: int| 0 <= i < topic.len() ==> topic[i] != 0,
    ensures
        first_zero(topic + seq![0u8] + payload) == topic.len(),
        (topic + seq![0u8] + payload).subrange(0, topic.len() as int) == topic,
        (topic + seq![0u8] + payload).subrange(
            topic.len() as int + 1,
            (topic + seq![0u8] + payload).len() as int,
        ) == payload,
{
    let f = topic + seq![0u8] + payload;
    lemma_first_zero_char(f);
    assert(f[topic.len() as int] == 0);
    if first_zero(f) == -1 {
        assert(f[topic.len() as int] != 0);
    }
    let z = first_zero(f);
    if z < topic.len() {
        assert(f[z] == topic[z]);
        assert(f[z] != 0);
    }
    if z > topic.len() {
        assert(f[topic.len() as int] != 0);
    }
    assert(f.subrange(0, topic.len() as int) =~= topic);
    assert(f.subrange(topic.len() as int + 1, f.len() as int) =~= payload);
}

} // verus!
