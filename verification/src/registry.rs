//! The shared client registry: a table from nickname to send handle,
//! with at most one entry per nickname, and the broadcast operation that
//! plans one write per registered client.

use vstd::prelude::*;

verus! {

/// A planned write of one message to one client.
///
/// The registry does not perform I/O; a broadcast returns one `Delivery`
/// per recipient, and the embedding program writes `message` to the
/// transport that `to` identifies. A failed write affects that recipient
/// alone: the plan for the others is already fixed.
pub struct Delivery {
    /// Send-handle identifier of the recipient.
    pub to: u64,
    /// The text to write to that recipient.
    pub message: String,
}

/// Mathematical content of one `Delivery`: recipient and message text.
pub open spec fn delivery_model(d: Delivery) -> (u64, Seq<char>) {
    (d.to, d.message@)
}

/// Mathematical content of a delivery plan, in order.
pub open spec fn deliveries_model(ds: Seq<Delivery>) -> Seq<(u64, Seq<char>)> {
    ds.map_values(|d: Delivery| delivery_model(d))
}

/// One registered client: its nickname and its send-handle identifier.
struct Entry {
    nick: String,
    handle: u64,
}

/// Whether some entry of `m` carries the nickname `n`.
pub open spec fn has_nick(m: Seq<(Seq<char>, u64)>, n: Seq<char>) -> bool {
    exists|i: int| 0 <= i < m.len() && m[i].0 == n
}

/// The send handles of `m`, in registration order.
pub open spec fn handles(m: Seq<(Seq<char>, u64)>) -> Seq<u64> {
    m.map_values(|p: (Seq<char>, u64)| p.1)
}

/// No two entries of `m` carry the same nickname.
pub open spec fn distinct_nicks(m: Seq<(Seq<char>, u64)>) -> bool {
    forall|i: int, j: int| 0 <= i < j < m.len() ==> m[i].0 != m[j].0
}

/// Effect of one registration attempt on the table: a no-op when the
/// nickname is taken, an append otherwise.
pub open spec fn register_model(
    m: Seq<(Seq<char>, u64)>,
    n: Seq<char>,
    h: u64,
) -> Seq<(Seq<char>, u64)> {
    if has_nick(m, n) {
        m
    } else {
        m.push((n, h))
    }
}

/// Effect of removing the nickname `n` from the table: every entry that
/// carries another nickname stays, in order.
pub open spec fn remove_model(m: Seq<(Seq<char>, u64)>, n: Seq<char>) -> Seq<(Seq<char>, u64)> {
    m.filter(|p: (Seq<char>, u64)| p.0 != n)
}

/// One message fanned out to a sequence of handles: a delivery plan with
/// one entry per handle, all carrying the same text, in handle order.
pub open spec fn fanout(hs: Seq<u64>, msg: Seq<char>) -> Seq<(u64, Seq<char>)> {
    hs.map_values(|h: u64| (h, msg))
}

/// The recipients of a broadcast: all of `m`, or all of `m` but the
/// entries carrying the excluded nickname.
pub open spec fn recipients(
    m: Seq<(Seq<char>, u64)>,
    exclude: Option<Seq<char>>,
) -> Seq<(Seq<char>, u64)> {
    match exclude {
        Option::None => m,
        Option::Some(n) => remove_model(m, n),
    }
}

/// The excluded nickname, if any, as a sequence of characters.
pub open spec fn exclude_model(exclude: Option<&String>) -> Option<Seq<char>> {
    match exclude {
        Option::None => Option::None,
        Option::Some(e) => Option::Some(e@),
    }
}

/// Outcome of a registration attempt.
#[derive(PartialEq, Eq, Structural)]
pub enum RegisterOutcome {
    /// The nickname was free; the client is now registered.
    Registered,
    /// Another client already holds the nickname; nothing changed.
    AlreadyExists,
}

proof fn lemma_remove_model_absent(m: Seq<(Seq<char>, u64)>, n: Seq<char>)
    requires
        forall|k: int| 0 <= k < m.len() ==> m[k].0 != n,
    ensures
        remove_model(m, n) == m,
    decreases m.len(),
{
    reveal(Seq::filter);
    if m.len() == 0 {
        assert(remove_model(m, n) =~= m);
    } else {
        let rest = m.drop_last();
        lemma_remove_model_absent(rest, n);
        assert(m[m.len() - 1].0 != n);
        assert(remove_model(m, n) =~= m);
    }
}

proof fn lemma_remove_model_unique(m: Seq<(Seq<char>, u64)>, n: Seq<char>, i: int)
    requires
        0 <= i < m.len(),
        m[i].0 == n,
        forall|k: int| 0 <= k < m.len() && k != i ==> m[k].0 != n,
    ensures
        remove_model(m, n) == m.remove(i),
    decreases m.len(),
{
    reveal(Seq::filter);
    let last = m.len() - 1;
    if i == last {
        lemma_remove_model_absent(m.drop_last(), n);
        assert(m.remove(i) =~= m.drop_last());
    } else {
        let rest = m.drop_last();
        assert(forall|k: int| 0 <= k < rest.len() && k != i ==> rest[k].0 != n);
        lemma_remove_model_unique(rest, n, i);
        assert(m[last].0 != n);
        assert(remove_model(m, n) == rest.remove(i).push(m[last]));
        assert(remove_model(m, n) =~= m.remove(i));
    }
}

proof fn lemma_remove_model_pred(m: Seq<(Seq<char>, u64)>, n: Seq<char>)
    ensures
        forall|k: int| 0 <= k < remove_model(m, n).len() ==> remove_model(m, n)[k].0 != n,
    decreases m.len(),
{
    reveal(Seq::filter);
    if m.len() > 0 {
        lemma_remove_model_pred(m.drop_last(), n);
    }
}

/// Unregistering a nickname is idempotent: removing it from a table it
/// is already absent from, in particular from the result of a first
/// removal, changes nothing.
pub proof fn lemma_unregister_idempotent(m: Seq<(Seq<char>, u64)>, n: Seq<char>)
    ensures
        remove_model(remove_model(m, n), n) == remove_model(m, n),
{
    lemma_remove_model_pred(m, n);
    lemma_remove_model_absent(remove_model(m, n), n);
}

proof fn lemma_distinct_remove(m: Seq<(Seq<char>, u64)>, i: int)
    requires
        distinct_nicks(m),
        0 <= i < m.len(),
    ensures
        distinct_nicks(m.remove(i)),
{
    let r = m.remove(i);
    assert forall|a: int, b: int| 0 <= a < b < r.len() implies r[a].0 != r[b].0 by {
        let a0 = if a < i { a } else { a + 1 };
        let b0 = if b < i { b } else { b + 1 };
        assert(r[a] == m[a0]);
        assert(r[b] == m[b0]);
    }
}

proof fn lemma_handles_push(m: Seq<(Seq<char>, u64)>, p: (Seq<char>, u64))
    ensures
        handles(m.push(p)) == handles(m).push(p.1),
{
    assert(handles(m.push(p)) =~= handles(m).push(p.1));
}

proof fn lemma_fanout_push(hs: Seq<u64>, h: u64, msg: Seq<char>)
    ensures
        fanout(hs.push(h), msg) == fanout(hs, msg).push((h, msg)),
{
    assert(fanout(hs.push(h), msg) =~= fanout(hs, msg).push((h, msg)));
}

proof fn lemma_deliveries_push(ds: Seq<Delivery>, d: Delivery)
    ensures
        deliveries_model(ds.push(d)) == deliveries_model(ds).push(delivery_model(d)),
{
    assert(deliveries_model(ds.push(d)) =~= deliveries_model(ds).push(delivery_model(d)));
}

proof fn lemma_recipients_empty(ex: Option<Seq<char>>)
    ensures
        recipients(Seq::<(Seq<char>, u64)>::empty(), ex) == Seq::<(Seq<char>, u64)>::empty(),
{
    reveal(Seq::filter);
    match ex {
        Option::None => {},
        Option::Some(n) => {
            assert(remove_model(Seq::<(Seq<char>, u64)>::empty(), n) =~= Seq::<(
                Seq<char>,
                u64,
            )>::empty());
        },
    }
}

proof fn lemma_recipients_step(m: Seq<(Seq<char>, u64)>, ex: Option<Seq<char>>, i: int)
    requires
        0 <= i < m.len(),
    ensures
        (ex matches Option::Some(n) && m[i].0 == n) ==> recipients(m.take(i + 1), ex)
            == recipients(m.take(i), ex),
        !(ex matches Option::Some(n) && m[i].0 == n) ==> recipients(m.take(i + 1), ex)
            == recipients(m.take(i), ex).push(m[i]),
    decreases m.len(),
{
    reveal(Seq::filter);
    let a = m.take(i + 1);
    let b = m.take(i);
    assert(a.drop_last() =~= b);
    assert(a.last() == m[i]);
    match ex {
        Option::None => {
            assert(a =~= b.push(m[i]));
        },
        Option::Some(n) => {
            assert(remove_model(a, n) == if m[i].0 != n {
                remove_model(b, n).push(m[i])
            } else {
                remove_model(b, n)
            });
        },
    }
}

/// The shared mapping from nickname to send handle.
///
/// The embedding program shares one `Registry` among all connection
/// sessions behind a single mutual-exclusion lock; every operation here
/// is one critical section. The invariant [`Registry::wf`] (at most one
/// entry per nickname) is established by [`Registry::new`] and preserved
/// by every operation.
pub struct Registry {
    entries: Vec<Entry>,
}

impl Registry {
    /// The table as a sequence of (nickname, handle) pairs, in
    /// registration order.
    pub closed spec fn model(self) -> Seq<(Seq<char>, u64)> {
        self.entries@.map_values(|e: Entry| (e.nick@, e.handle))
    }

    /// Registry invariant: nicknames are unique among current entries.
    pub open spec fn wf(self) -> bool {
        distinct_nicks(self.model())
    }

    /// An empty registry.
    pub fn new() -> (r: Registry)
        ensures
            r.model() == Seq::<(Seq<char>, u64)>::empty(),
            r.wf(),
    {
        let r = Registry { entries: Vec::new() };
        proof {
            assert(r.model() =~= Seq::<(Seq<char>, u64)>::empty());
        }
        r
    }

    /// Number of currently registered clients.
    pub fn len(&self) -> (n: usize)
        ensures
            n == self.model().len(),
    {
        self.entries.len()
    }

    /// Whether `nick` is currently registered.
    pub fn contains(&self, nick: &String) -> (r: bool)
        ensures
            r == has_nick(self.model(), nick@),
    {
        let n = self.entries.len();
        let mut i: usize = 0;
        while i < n
            invariant
                n == self.entries@.len(),
                i <= n,
                forall|k: int| 0 <= k < i ==> self.model()[k].0 != nick@,
            decreases n - i,
        {
            if self.entries[i].nick == *nick {
                proof {
                    assert(self.model()[i as int].0 == nick@);
                }
                return true;
            }
            i += 1;
        }
        false
    }

    /// Atomically check-and-insert one nickname.
    ///
    /// Succeeds exactly when `nick` is not yet registered; on success the
    /// new entry is appended, on failure the table is unchanged. The
    /// embedding program must hold the registry lock across the whole
    /// call, so no two sessions can both pass the check before either
    /// inserts.
    pub fn try_register(&mut self, nick: String, handle: u64) -> (r: RegisterOutcome)
        requires
            old(self).wf(),
        ensures
            (r is Registered) == !has_nick(old(self).model(), nick@),
            final(self).model() == register_model(old(self).model(), nick@, handle),
            final(self).wf(),
    {
        if self.contains(&nick) {
            return RegisterOutcome::AlreadyExists;
        }
        let ghost m0 = self.model();
        let ghost n = nick@;
        self.entries.push(Entry { nick, handle });
        proof {
            assert(self.model() =~= m0.push((n, handle)));
            assert forall|i: int, j: int|
                0 <= i < j < self.model().len() implies self.model()[i].0
                != self.model()[j].0 by {
                if j == m0.len() {
                    assert(!(m0[i].0 == n));
                }
            }
        }
        RegisterOutcome::Registered
    }

    /// Remove the entry for `nick`, if there is one.
    ///
    /// Idempotent: removing an absent nickname changes nothing and is not
    /// an error.
    pub fn unregister(&mut self, nick: &String)
        requires
            old(self).wf(),
        ensures
            final(self).model() == remove_model(old(self).model(), nick@),
            final(self).wf(),
    {
        let ghost m0 = self.model();
        let n = self.entries.len();
        let mut i: usize = 0;
        while i < n
            invariant
                *self == *old(self),
                m0 == self.model(),
                distinct_nicks(m0),
                n == self.entries@.len(),
                i <= n,
                forall|k: int| 0 <= k < i ==> self.model()[k].0 != nick@,
            decreases n - i,
        {
            if self.entries[i].nick == *nick {
                let ghost idx = i as int;
                proof {
                    assert(m0 == self.model());
                    assert(m0.len() == n);
                    assert(m0[idx].0 == nick@);
                    assert forall|k: int| 0 <= k < m0.len() && k != idx implies m0[k].0
                        != nick@ by {
                        if k < idx {
                            assert(m0[k].0 != m0[idx].0);
                        } else {
                            assert(m0[idx].0 != m0[k].0);
                        }
                    }
                }
                self.entries.remove(i);
                proof {
                    lemma_remove_model_unique(m0, nick@, idx);
                    assert(self.model() =~= m0.remove(idx));
                    lemma_distinct_remove(m0, idx);
                }
                return ;
            }
            i += 1;
        }
        proof {
            lemma_remove_model_absent(m0, nick@);
        }
    }

    /// Plan the fan-out of one message to every currently registered
    /// client, optionally skipping the entries of one nickname.
    ///
    /// The plan holds one delivery per recipient, in registration order,
    /// each carrying `msg`. Performing the writes is the embedding
    /// program's task; because the plan is complete before any write
    /// happens, one recipient's failure cannot affect what the others are
    /// sent.
    pub fn broadcast(&self, msg: &String, exclude: Option<&String>) -> (ds: Vec<Delivery>)
        ensures
            deliveries_model(ds@) == fanout(
                handles(recipients(self.model(), exclude_model(exclude))),
                msg@,
            ),
    {
        let mut ds: Vec<Delivery> = Vec::new();
        let n = self.entries.len();
        let mut i: usize = 0;
        proof {
            assert(self.model().take(0) =~= Seq::<(Seq<char>, u64)>::empty());
            lemma_recipients_empty(exclude_model(exclude));
            assert(deliveries_model(ds@) =~= fanout(
                handles(recipients(self.model().take(0), exclude_model(exclude))),
                msg@,
            ));
        }
        while i < n
            invariant
                n == self.entries@.len(),
                i <= n,
                deliveries_model(ds@) == fanout(
                    handles(recipients(self.model().take(i as int), exclude_model(exclude))),
                    msg@,
                ),
            decreases n - i,
        {
            let skip = match exclude {
                Option::Some(e) => self.entries[i].nick == *e,
                Option::None => false,
            };
            proof {
                lemma_recipients_step(self.model(), exclude_model(exclude), i as int);
            }
            if !skip {
                let d = Delivery { to: self.entries[i].handle, message: msg.clone() };
                proof {
                    let pre = recipients(self.model().take(i as int), exclude_model(exclude));
                    lemma_handles_push(pre, self.model()[i as int]);
                    lemma_fanout_push(handles(pre), self.model()[i as int].1, msg@);
                    lemma_deliveries_push(ds@, d);
                }
                ds.push(d);
            }
            i += 1;
        }
        proof {
            assert(self.model().take(n as int) =~= self.model());
        }
        ds
    }
}

} // verus!
