//! System-wide guarantees of the relay, stated and proved over the
//! registry's mathematical model.
//!
//! Concurrent sessions act on the shared registry one at a time, because
//! the embedding program holds one lock across every
//! [`crate::session::session_step`] call. Any concurrent run is therefore
//! some serialization of its steps, and each law below quantifies over
//! all such serializations: a sequence of registration attempts, or a
//! pair of broadcasts in the order the lock granted them.

use crate::registry::distinct_nicks;
use crate::registry::fanout;
use crate::registry::handles;
use crate::registry::has_nick;
use crate::registry::register_model;
use vstd::prelude::*;

verus! {

/// The table after a sequence of registration attempts that all carry
/// the nickname `n`: one attempt per handle of `hs`, in lock order.
pub open spec fn run_joins(
    m: Seq<(Seq<char>, u64)>,
    n: Seq<char>,
    hs: Seq<u64>,
) -> Seq<(Seq<char>, u64)>
    decreases hs.len(),
{
    if hs.len() == 0 {
        m
    } else {
        run_joins(register_model(m, n, hs[0]), n, hs.drop_first())
    }
}

/// How many of those attempts succeed.
pub open spec fn joins_succeeded(m: Seq<(Seq<char>, u64)>, n: Seq<char>, hs: Seq<u64>) -> nat
    decreases hs.len(),
{
    if hs.len() == 0 {
        0
    } else {
        (if has_nick(m, n) {
            0nat
        } else {
            1nat
        }) + joins_succeeded(register_model(m, n, hs[0]), n, hs.drop_first())
    }
}

proof fn lemma_joins_taken(m: Seq<(Seq<char>, u64)>, n: Seq<char>, hs: Seq<u64>)
    requires
        has_nick(m, n),
    ensures
        run_joins(m, n, hs) == m,
        joins_succeeded(m, n, hs) == 0,
    decreases hs.len(),
{
    if hs.len() > 0 {
        assert(register_model(m, n, hs[0]) == m);
        lemma_joins_taken(m, n, hs.drop_first());
    }
}

/// Uniqueness: however many concurrent sessions attempt to register the
/// same free nickname, in whatever order the lock serializes them,
/// exactly the first attempt succeeds, the table grows by exactly one
/// entry, and nicknames stay unique.
pub proof fn lemma_join_uniqueness(m: Seq<(Seq<char>, u64)>, n: Seq<char>, hs: Seq<u64>)
    requires
        distinct_nicks(m),
        !has_nick(m, n),
        hs.len() >= 1,
    ensures
        joins_succeeded(m, n, hs) == 1,
        run_joins(m, n, hs) == m.push((n, hs[0])),
        run_joins(m, n, hs).len() == m.len() + 1,
        has_nick(run_joins(m, n, hs), n),
        distinct_nicks(run_joins(m, n, hs)),
{
    let m1 = m.push((n, hs[0]));
    assert(register_model(m, n, hs[0]) == m1);
    assert(m1[m.len() as int].0 == n);
    assert(has_nick(m1, n));
    assert forall|i: int, j: int| 0 <= i < j < m1.len() implies m1[i].0 != m1[j].0 by {
        if j == m.len() {
            assert(!(m[i].0 == n));
        }
    }
    lemma_joins_taken(m1, n, hs.drop_first());
}

/// Fan-out completeness: broadcasting a message over a table of K
/// registered clients plans exactly K deliveries, one per client's send
/// handle, each carrying the message.
pub proof fn lemma_fanout_completeness(m: Seq<(Seq<char>, u64)>, msg: Seq<char>)
    ensures
        fanout(handles(m), msg).len() == m.len(),
        forall|i: int| 0 <= i < m.len() ==> fanout(handles(m), msg)[i] == (m[i].1, msg),
{
}

/// The messages of the delivery plan `ds` addressed to handle `h`, in
/// plan order.
pub open spec fn msgs_to(h: u64, ds: Seq<(u64, Seq<char>)>) -> Seq<Seq<char>>
    decreases ds.len(),
{
    if ds.len() == 0 {
        Seq::empty()
    } else {
        let rest = msgs_to(h, ds.drop_first());
        if ds[0].0 == h {
            seq![ds[0].1] + rest
        } else {
            rest
        }
    }
}

/// Number of times the handle `h` occurs in `hs`.
pub open spec fn occurrences(h: u64, hs: Seq<u64>) -> nat
    decreases hs.len(),
{
    if hs.len() == 0 {
        0
    } else {
        (if hs[0] == h {
            1nat
        } else {
            0nat
        }) + occurrences(h, hs.drop_first())
    }
}

proof fn lemma_msgs_to_concat(h: u64, a: Seq<(u64, Seq<char>)>, b: Seq<(u64, Seq<char>)>)
    ensures
        msgs_to(h, a + b) == msgs_to(h, a) + msgs_to(h, b),
    decreases a.len(),
{
    if a.len() == 0 {
        assert(a + b =~= b);
        assert(msgs_to(h, a) + msgs_to(h, b) =~= msgs_to(h, b));
    } else {
        assert((a + b).drop_first() =~= a.drop_first() + b);
        assert((a + b)[0] == a[0]);
        lemma_msgs_to_concat(h, a.drop_first(), b);
        if a[0].0 == h {
            assert(seq![a[0].1] + (msgs_to(h, a.drop_first()) + msgs_to(h, b)) =~= (seq![a[0].1]
                + msgs_to(h, a.drop_first())) + msgs_to(h, b));
        }
    }
}

proof fn lemma_msgs_to_fanout(h: u64, hs: Seq<u64>, msg: Seq<char>)
    ensures
        msgs_to(h, fanout(hs, msg)) == Seq::new(occurrences(h, hs), |i: int| msg),
    decreases hs.len(),
{
    let f = fanout(hs, msg);
    if hs.len() == 0 {
        assert(msgs_to(h, f) =~= Seq::new(occurrences(h, hs), |i: int| msg));
    } else {
        assert(f[0] == (hs[0], msg));
        assert(f.drop_first() =~= fanout(hs.drop_first(), msg));
        lemma_msgs_to_fanout(h, hs.drop_first(), msg);
        if hs[0] == h {
            assert(seq![msg] + Seq::new(occurrences(h, hs.drop_first()), |i: int| msg) =~= Seq::new(
                occurrences(h, hs),
                |i: int| msg,
            ));
        }
    }
}

/// Serialized ordering: when two messages are broadcast in some order
/// over the same table (the registry lock totally orders them), every
/// client registered with handle `h` is sent the two messages in that
/// same order. All observers therefore agree on the relative order of
/// any two broadcasts.
pub proof fn lemma_serialized_ordering(
    m: Seq<(Seq<char>, u64)>,
    msg1: Seq<char>,
    msg2: Seq<char>,
    h: u64,
)
    requires
        occurrences(h, handles(m)) == 1,
    ensures
        msgs_to(h, fanout(handles(m), msg1) + fanout(handles(m), msg2)) == seq![msg1, msg2],
{
    lemma_msgs_to_concat(h, fanout(handles(m), msg1), fanout(handles(m), msg2));
    lemma_msgs_to_fanout(h, handles(m), msg1);
    lemma_msgs_to_fanout(h, handles(m), msg2);
    assert(Seq::new(1, |i: int| msg1) + Seq::new(1, |i: int| msg2) =~= seq![msg1, msg2]);
}

} // verus!
