//! The presence tracker: heartbeats mark a user online in the store
//! and announce it on the bus; an explicit mark-offline or a sweep over
//! stale entries reclaims presence and announces the transition. A
//! user's state is `Online(last_seen)` while a presence row exists and
//! offline otherwise; no other transitions exist.

use vstd::prelude::*;
use crate::bus::Bus;
use crate::bus::delivered;
use crate::bus::lemma_enqueue_observes;
use crate::clock::now_ms;
use crate::digits::dec_str;
use crate::digits::push_dec;
use crate::store::Storage;
use crate::store::StoreError;
use crate::text::json_escape;
use crate::text::push_all;
use crate::text::push_json_escaped;
use crate::text::string_of;
use crate::text::vec_chars;

verus! {

/// The JSON text announced for a presence transition of `user` seen
/// last at `ts` (unix seconds).
pub open spec fn presence_event(user: Seq<char>, ts: i64) -> Seq<char> {
    "{\"user_id\":\""@ + json_escape(user) + "\",\"last_seen\":"@ + dec_str(ts as int) + "}"@
}

/// Build the presence announcement for `user` at `ts`.
fn build_presence_event(user: &Vec<char>, ts: i64) -> (p: String)
    requires
        0 <= ts,
    ensures
        p@ == presence_event(user@, ts),
{
    let mut v: Vec<char> = vec_chars("{\"user_id\":\"");
    push_json_escaped(&mut v, user);
    let mid = vec_chars("\",\"last_seen\":");
    push_all(&mut v, &mid);
    push_dec(&mut v, ts as u64);
    v.push('}');
    proof {
        reveal_strlit("}");
        assert("}"@ =~= seq!['}']);
        assert(v@ =~= presence_event(user@, ts));
    }
    string_of(&v)
}

/// Relies on `uuid::Uuid::new_v4` and its hyphenated `Display` form:
/// 36 characters. The value is random; nothing is assumed about which.
#[verifier::external_body]
fn uuid_v4_string() -> (s: String)
    ensures
        s@.len() == 36,
{
    uuid::Uuid::new_v4().to_string()
}

/// Mark `user_id` online at `now_s` and announce it on
/// `presence/online`. Store first, then publish; safe to repeat (a
/// refresh overwrites the row).
pub fn heartbeat_at(
    store: &mut Storage,
    bus: &mut Bus,
    user_id: &str,
    now_s: i64,
) -> (r: Result<(), StoreError>)
    requires
        old(store).wf(),
        old(bus).wf(),
        0 <= now_s,
    ensures
        final(store).wf(),
        final(bus).wf(),
        r is Ok ==> final(store).presence() == old(store).presence().insert(user_id@, now_s),
        r is Err ==> final(store).presence() == old(store).presence(),
        r matches Err(e) ==> e == StoreError::Storage,
        final(store).msgs() == old(store).msgs(),
        final(store).seqs() == old(store).seqs(),
        final(store).users() == old(store).users(),
        final(store).rates() == old(store).rates(),
        r is Ok ==> delivered(
            old(bus).model(),
            final(bus).model(),
            "presence/online"@,
            presence_event(user_id@, now_s),
        ),
        r is Err ==> final(bus).model() == old(bus).model(),
        final(bus).fresh_id() == old(bus).fresh_id(),
{
    match store.set_presence(user_id, true, now_s) {
        Ok(()) => (),
        Err(e) => {
            return Err(e);
        },
    }
    let uv = vec_chars(user_id);
    let p = build_presence_event(&uv, now_s);
    bus.publish("presence/online", &p);
    Ok(())
}

/// What one heartbeat of `id` at time `t` leaves behind: the presence
/// row written, and the announcement delivered on `presence/online`.
pub open spec fn heartbeat_outcome(
    s0: Storage,
    s1: Storage,
    b0: Seq<crate::bus::SubEntry>,
    b1: Seq<crate::bus::SubEntry>,
    id: Seq<char>,
    t: i64,
) -> bool {
    0 <= t && s1.presence() == s0.presence().insert(id, t) && delivered(
        b0,
        b1,
        "presence/online"@,
        presence_event(id, t),
    )
}

/// Heartbeat with an optional resolved identity: a missing one gets a
/// synthesized guest identity. Returns the identity used, so the
/// caller can associate it with its connection.
#[verifier::rlimit(50)]
pub fn heartbeat(store: &mut Storage, bus: &mut Bus, user_id: Option<String>) -> (r: Result<
    String,
    StoreError,
>)
    requires
        old(store).wf(),
        old(bus).wf(),
    ensures
        final(store).wf(),
        final(bus).wf(),
        final(store).msgs() == old(store).msgs(),
        final(store).seqs() == old(store).seqs(),
        final(store).users() == old(store).users(),
        final(store).rates() == old(store).rates(),
        final(bus).fresh_id() == old(bus).fresh_id(),
        r matches Ok(id) ==> exists|t: i64| #[trigger] heartbeat_outcome(
            *old(store),
            *final(store),
            old(bus).model(),
            final(bus).model(),
            id@,
            t,
        ),
        r matches Ok(id) ==> (match user_id {
            Some(u) => id@ == u@,
            None => id@.len() == 41 && id@.subrange(0, 5) == "anon-"@,
        }),
        r is Err ==> final(store).presence() == old(store).presence() && final(bus).model()
            == old(bus).model(),
        r matches Err(e) ==> e == StoreError::Storage,
{
    let id: String = match user_id {
        Some(u) => u,
        None => {
            let mut g = vec_chars("anon-");
            let u = uuid_v4_string();
            let uv = vec_chars(u.as_str());
            push_all(&mut g, &uv);
            proof {
                reveal_strlit("anon-");
                assert(g@.subrange(0, 5) =~= "anon-"@);
            }
            string_of(&g)
        },
    };
    let now: i64 = now_ms() / 1000;
    let out: Result<String, StoreError> = match heartbeat_at(store, bus, id.as_str(), now) {
        Ok(()) => Ok(id),
        Err(e) => Err(e),
    };
    proof {
        if out is Ok {
            assert(heartbeat_outcome(
                *old(store),
                *store,
                old(bus).model(),
                bus.model(),
                out->Ok_0@,
                now,
            ));
        }
    }
    out
}

/// Mark `user_id` offline (remove its row) and announce it on
/// `presence/offline`.
pub fn mark_offline(store: &mut Storage, bus: &mut Bus, user_id: &str) -> (r: Result<
    (),
    StoreError,
>)
    requires
        old(store).wf(),
        old(bus).wf(),
    ensures
        final(store).wf(),
        final(bus).wf(),
        r is Ok ==> final(store).presence() == old(store).presence().remove(user_id@),
        r is Err ==> final(store).presence() == old(store).presence(),
        r matches Err(e) ==> e == StoreError::Storage,
        final(store).msgs() == old(store).msgs(),
        final(store).seqs() == old(store).seqs(),
        final(store).users() == old(store).users(),
        final(store).rates() == old(store).rates(),
        r is Ok ==> exists|t: i64|
            0 <= t && #[trigger] delivered(
                old(bus).model(),
                final(bus).model(),
                "presence/offline"@,
                presence_event(user_id@, t),
            ),
        r is Err ==> final(bus).model() == old(bus).model(),
        final(bus).fresh_id() == old(bus).fresh_id(),
{
    let now: i64 = now_ms() / 1000;
    match store.set_presence(user_id, false, now) {
        Ok(()) => (),
        Err(e) => {
            return Err(e);
        },
    }
    let uv = vec_chars(user_id);
    let p = build_presence_event(&uv, now);
    bus.publish("presence/offline", &p);
    proof {
        assert(0 <= now && delivered(
            old(bus).model(),
            bus.model(),
            "presence/offline"@,
            presence_event(user_id@, now),
        ));
    }
    Ok(())
}

/// One presence map after a sweep at `now` with staleness bound
/// `timeout`: exactly the fresh rows survive, unchanged.
pub open spec fn presence_swept(
    pre: Map<Seq<char>, i64>,
    post: Map<Seq<char>, i64>,
    now: i64,
    timeout: i64,
) -> bool {
    &&& forall|u: Seq<char>| #[trigger]
        post.contains_key(u) ==> pre.contains_key(u) && post[u] == pre[u]
    &&& forall|u: Seq<char>| #[trigger]
        pre.contains_key(u) ==> (post.contains_key(u) <==> now - pre[u] <= timeout)
}

/// `u` went stale: seen last more than `timeout` seconds before `now`.
pub open spec fn stale(pre: Map<Seq<char>, i64>, now: i64, timeout: i64, u: Seq<char>) -> bool {
    pre.contains_key(u) && now - pre[u] > timeout
}

/// A sweep keeps fresh users online and removes stale ones: the
/// transitions of the presence state machine, seen from the map.
pub proof fn lemma_sweep_transitions(
    pre: Map<Seq<char>, i64>,
    post: Map<Seq<char>, i64>,
    now: i64,
    timeout: i64,
    u: Seq<char>,
)
    requires
        presence_swept(pre, post, now, timeout),
        pre.contains_key(u),
    ensures
        stale(pre, now, timeout, u) ==> !post.contains_key(u),
        !stale(pre, now, timeout, u) ==> post.contains_key(u) && post[u] == pre[u],
{
}

/// With no stale user anywhere, every listed entry is fresh.
proof fn lemma_no_stale_entries(
    list: Seq<(String, i64)>,
    pre: Map<Seq<char>, i64>,
    now: i64,
    timeout: i64,
    i: int,
)
    requires
        forall|j: int|
            0 <= j < list.len() ==> pre.contains_key(#[trigger] list[j].0@) && pre[list[j].0@]
                == list[j].1,
        forall|u: Seq<char>| !stale(pre, now, timeout, u),
        0 <= i <= list.len(),
    ensures
        forall|j: int| 0 <= j < i ==> now - list[j].1 <= timeout,
{
    assert forall|j: int| 0 <= j < i implies now - list[j].1 <= timeout by {
        assert(!stale(pre, now, timeout, list[j].0@));
    }
}

/// One sweep pass: every entry older than `timeout_secs` is marked
/// offline in the store and announced on `presence/offline`. A store
/// failure on one entry does not stop the sweep of the others; it is
/// reported once the pass is done.
pub fn presence_sweep(
    store: &mut Storage,
    bus: &mut Bus,
    now_s: i64,
    timeout_secs: i64,
) -> (r: Result<(), StoreError>)
    requires
        old(store).wf(),
        old(bus).wf(),
    ensures
        final(store).wf(),
        final(bus).wf(),
        r is Ok ==> presence_swept(
            old(store).presence(),
            final(store).presence(),
            now_s,
            timeout_secs,
        ),
        forall|u: Seq<char>| #[trigger]
            final(store).presence().contains_key(u) ==> old(store).presence().contains_key(u)
                && final(store).presence()[u] == old(store).presence()[u],
        forall|u: Seq<char>| #[trigger]
            old(store).presence().contains_key(u) && now_s - old(store).presence()[u]
                <= timeout_secs ==> final(store).presence().contains_key(u),
        r matches Err(e) ==> e == StoreError::Storage,
        final(store).msgs() == old(store).msgs(),
        final(store).seqs() == old(store).seqs(),
        final(store).users() == old(store).users(),
        final(store).rates() == old(store).rates(),
        final(bus).fresh_id() == old(bus).fresh_id(),
        final(bus).model().len() == old(bus).model().len(),
        forall|x: int|
            0 <= x < old(bus).model().len() ==> (#[trigger] final(bus).model()[x]).id
                == old(bus).model()[x].id && final(bus).model()[x].topic@
                == old(bus).model()[x].topic@,
        forall|x: int|
            0 <= x < old(bus).model().len() && old(bus).model()[x].topic@ != "presence/offline"@
                ==> (#[trigger] final(bus).model()[x]).queue@ == old(bus).model()[x].queue@,
        (forall|u: Seq<char>| !stale(old(store).presence(), now_s, timeout_secs, u))
            ==> final(bus).model() == old(bus).model(),
        (exists|u: Seq<char>| stale(old(store).presence(), now_s, timeout_secs, u)) && r is Ok
            ==> forall|x: int|
            0 <= x < old(bus).model().len() && old(bus).model()[x].topic@ == "presence/offline"@
                ==> (#[trigger] final(bus).model()[x]).queue@.len() > 0 && exists|u: Seq<char>|
                stale(old(store).presence(), now_s, timeout_secs, u)
                    && final(bus).model()[x].queue@.last()@ == presence_event(
                    u,
                    if old(store).presence()[u] >= 0 {
                        old(store).presence()[u]
                    } else {
                        0i64
                    },
                ),
{
    let list = match store.list_presence() {
        Ok(l) => l,
        Err(e) => {
            return Err(e);
        },
    };
    let n: usize = list.len();
    let mut i: usize = 0;
    let mut failed: bool = false;
    let ghost pre_p = old(store).presence();
    let ghost pre_b = old(bus).model();
    while i < n
        invariant
            i <= n,
            n == list@.len(),
            store.wf(),
            bus.wf(),
            forall|j: int|
                0 <= j < n ==> pre_p.contains_key(#[trigger] list@[j].0@) && pre_p[list@[j].0@]
                    == list@[j].1,
            forall|u: Seq<char>|
                pre_p.contains_key(u) ==> exists|j: int| 0 <= j < n && #[trigger] list@[j].0@ == u,
            forall|j1: int, j2: int|
                0 <= j1 < n && 0 <= j2 < n && j1 != j2 ==> list@[j1].0@ != list@[j2].0@,
            forall|u: Seq<char>| #[trigger]
                store.presence().contains_key(u) ==> pre_p.contains_key(u) && store.presence()[u]
                    == pre_p[u],
            forall|j: int| i <= j < n ==> store.presence().contains_key(#[trigger] list@[j].0@),
            forall|j: int|
                0 <= j < n && now_s - list@[j].1 <= timeout_secs ==> store.presence().contains_key(
                    #[trigger] list@[j].0@,
                ),
            !failed ==> forall|j: int|
                0 <= j < i ==> (store.presence().contains_key(#[trigger] list@[j].0@) <==> now_s
                    - list@[j].1 <= timeout_secs),
            store.msgs() == old(store).msgs(),
            store.seqs() == old(store).seqs(),
            store.users() == old(store).users(),
            store.rates() == old(store).rates(),
            pre_p == old(store).presence(),
            pre_b == old(bus).model(),
            bus.fresh_id() == old(bus).fresh_id(),
            bus.model().len() == pre_b.len(),
            forall|x: int|
                0 <= x < pre_b.len() ==> (#[trigger] bus.model()[x]).id == pre_b[x].id
                    && bus.model()[x].topic@ == pre_b[x].topic@,
            forall|x: int|
                0 <= x < pre_b.len() && pre_b[x].topic@ != "presence/offline"@ ==> (
                #[trigger] bus.model()[x]).queue@ == pre_b[x].queue@,
            (forall|j: int| 0 <= j < i ==> now_s - list@[j].1 <= timeout_secs) ==> bus.model()
                == pre_b,
            !failed && (exists|j: int| 0 <= j < i && now_s - list@[j].1 > timeout_secs)
                ==> forall|x: int|
                0 <= x < pre_b.len() && pre_b[x].topic@ == "presence/offline"@ ==> (
                #[trigger] bus.model()[x]).queue@.len() > 0 && exists|u: Seq<char>|
                stale(pre_p, now_s, timeout_secs, u) && bus.model()[x].queue@.last()@
                    == presence_event(
                    u,
                    if pre_p[u] >= 0 {
                        pre_p[u]
                    } else {
                        0i64
                    },
                ),
        decreases n - i,
    {
        let last_seen: i64 = list[i].1;
        let is_stale: bool = ((now_s as i128) - (last_seen as i128)) > (timeout_secs as i128);
        if is_stale {
            match store.set_presence(list[i].0.as_str(), false, now_s) {
                Ok(()) => {
                    let uv = vec_chars(list[i].0.as_str());
                    let p = build_presence_event_clamped(&uv, last_seen);
                    let ghost before = bus.model();
                    bus.publish("presence/offline", &p);
                    proof {
                        let u0 = list@[i as int].0@;
                        assert(stale(pre_p, now_s, timeout_secs, u0));
                        assert forall|x: int|
                            0 <= x < pre_b.len() && pre_b[x].topic@ == "presence/offline"@ implies (
                        #[trigger] bus.model()[x]).queue@.len() > 0 && exists|u: Seq<char>|
                            stale(pre_p, now_s, timeout_secs, u) && bus.model()[x].queue@.last()@
                                == presence_event(
                                u,
                                if pre_p[u] >= 0 {
                                    pre_p[u]
                                } else {
                                    0i64
                                },
                            ) by {
                            assert(bus.model()[x].queue@ == crate::bus::enqueue(
                                before[x].queue@,
                                p,
                            ));
                            lemma_enqueue_observes(before[x].queue@, p);
                            assert(bus.model()[x].queue@.last() == p);
                        }
                    }
                },
                Err(_) => {
                    failed = true;
                },
            }
        }
        i = i + 1;
    }
    proof {
        if forall|u: Seq<char>| !stale(pre_p, now_s, timeout_secs, u) {
            lemma_no_stale_entries(list@, pre_p, now_s, timeout_secs, n as int);
        }
        assert forall|u: Seq<char>| #[trigger]
            pre_p.contains_key(u) && now_s - pre_p[u]
            <= timeout_secs implies store.presence().contains_key(u) by {
            let j = choose|j: int| 0 <= j < n && list@[j].0@ == u;
        }
        if !failed {
            assert forall|u: Seq<char>| #[trigger]
                pre_p.contains_key(u) implies (store.presence().contains_key(u) <==> now_s
                - pre_p[u] <= timeout_secs) by {
                let j = choose|j: int| 0 <= j < n && list@[j].0@ == u;
            }
            if exists|u: Seq<char>| stale(pre_p, now_s, timeout_secs, u) {
                let u0 = choose|u: Seq<char>| stale(pre_p, now_s, timeout_secs, u);
                let j = choose|j: int| 0 <= j < n && list@[j].0@ == u0;
                assert(0 <= j < n && now_s - list@[j].1 > timeout_secs);
            }
        }
    }
    if failed {
        Err(StoreError::Storage)
    } else {
        Ok(())
    }
}

/// Build the presence announcement, clamping a pathological negative
/// timestamp to zero for the decimal form.
fn build_presence_event_clamped(user: &Vec<char>, ts: i64) -> (p: String)
    ensures
        p@ == presence_event(user@, if ts >= 0 { ts } else { 0i64 }),
{
    let t: i64 = if ts >= 0 {
        ts
    } else {
        0
    };
    build_presence_event(user, t)
}

} // verus!
