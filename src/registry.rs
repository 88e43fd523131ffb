//! The connected clients, each with the channel that feeds its connection,
//! and the fan-out that pushes one message to all of them.
use vstd::prelude::*;
use tokio::sync::mpsc::Sender;

verus! {

/// tokio's bounded channel sender, carried through as an opaque value.
#[verifier::external_type_specification]
#[verifier::external_body]
#[verifier::reject_recursive_types(T)]
pub struct ExSender<T>(Sender<T>);

/// Relies on `tokio::sync::mpsc::Sender::try_send`, which never waits: it
/// takes the message when the channel has room and its receiver is still
/// there, and refuses it otherwise. Which of the two happens depends on the
/// receiving side, so nothing is promised.
#[verifier::external_body]
fn try_deliver(sender: &Sender<Vec<u8>>, message: &Vec<u8>) -> (delivered: bool) {
    sender.try_send(message.clone()).is_ok()
}

/// One connected client: its connection's identifier and the channel that
/// its connection writes out.
pub struct ClientHandle {
    pub id: u64,
    pub sender: Sender<Vec<u8>>,
}

/// The registered clients, in the order they registered; no identifier
/// appears twice. `offered` records, in order, each message offered to a
/// client's channel, with that client's identifier.
pub struct ClientRegistry {
    clients: Vec<ClientHandle>,
    offered: Ghost<Seq<(u64, Seq<u8>)>>,
}

/// The members of `s` whose flag in `keep` is set, in their order.
pub open spec fn kept(s: Seq<u64>, keep: Seq<bool>) -> Seq<u64>
    decreases s.len(),
{
    if s.len() == 0 || keep.len() == 0 {
        seq![]
    } else {
        (if keep[0] { seq![s[0]] } else { seq![] }) + kept(
            s.subrange(1, s.len() as int),
            keep.subrange(1, keep.len() as int),
        )
    }
}

/// The flags that keep every member of `s` but `id`.
pub open spec fn all_but(s: Seq<u64>, id: u64) -> Seq<bool> {
    Seq::new(s.len(), |j: int| s[j] != id)
}

pub proof fn lemma_kept_members(s: Seq<u64>, keep: Seq<bool>)
    requires
        s.len() == keep.len(),
    ensures
        forall|x: u64| kept(s, keep).contains(x) <==> exists|j: int|
            0 <= j < s.len() && keep[j] && s[j] == x,
        s.no_duplicates() ==> kept(s, keep).no_duplicates(),
    decreases s.len(),
{
    if s.len() > 0 {
        let s1 = s.subrange(1, s.len() as int);
        let k1 = keep.subrange(1, keep.len() as int);
        lemma_kept_members(s1, k1);
        let h: Seq<u64> = if keep[0] { seq![s[0]] } else { seq![] };
        let r = kept(s1, k1);
        assert(kept(s, keep) == h + r);
        assert forall|x: u64| kept(s, keep).contains(x) <==> exists|j: int|
            0 <= j < s.len() && keep[j] && s[j] == x by {
            if kept(s, keep).contains(x) {
                let i = choose|i: int| 0 <= i < kept(s, keep).len() && kept(s, keep)[i] == x;
                if i < h.len() {
                    assert(keep[0] && s[0] == x);
                } else {
                    assert(r[i - h.len()] == x);
                    assert(r.contains(x));
                    let j = choose|j: int| 0 <= j < s1.len() && k1[j] && s1[j] == x;
                    assert(keep[j + 1] && s[j + 1] == x);
                }
            }
            if exists|j: int| 0 <= j < s.len() && keep[j] && s[j] == x {
                let j = choose|j: int| 0 <= j < s.len() && keep[j] && s[j] == x;
                if j == 0 {
                    assert(kept(s, keep)[0] == x);
                } else {
                    assert(k1[j - 1] && s1[j - 1] == x);
                    assert(r.contains(x));
                    let i = choose|i: int| 0 <= i < r.len() && r[i] == x;
                    assert(kept(s, keep)[i + h.len()] == x);
                }
            }
        }
        if s.no_duplicates() {
            assert(s1.no_duplicates());
            if keep[0] {
                assert(!r.contains(s[0])) by {
                    if r.contains(s[0]) {
                        let j = choose|j: int| 0 <= j < s1.len() && k1[j] && s1[j] == s[0];
                        assert(s[j + 1] == s[0]);
                    }
                }
            }
            assert forall|a: int, b: int|
                0 <= a < kept(s, keep).len() && 0 <= b < kept(s, keep).len() && a != b
                    implies kept(s, keep)[a] != kept(s, keep)[b] by {
                if a < h.len() && b >= h.len() {
                    assert(r[b - h.len()] == kept(s, keep)[b]);
                } else if b < h.len() && a >= h.len() {
                    assert(r[a - h.len()] == kept(s, keep)[a]);
                } else if a >= h.len() && b >= h.len() {
                    assert(r[a - h.len()] == kept(s, keep)[a]);
                    assert(r[b - h.len()] == kept(s, keep)[b]);
                }
            }
        }
    }
}

/// One client's failed delivery costs no other client its place: after a
/// fan-out, exactly the clients whose delivery failed are gone, and every
/// other client stays registered.
pub proof fn lemma_failure_isolated(s: Seq<u64>, delivered: Seq<bool>)
    requires
        s.len() == delivered.len(),
        s.no_duplicates(),
    ensures
        forall|j: int| 0 <= j < s.len() ==> (kept(s, delivered).contains(#[trigger] s[j])
            <==> delivered[j]),
{
    lemma_kept_members(s, delivered);
    assert forall|j: int| 0 <= j < s.len() implies (kept(s, delivered).contains(
        #[trigger] s[j],
    ) <==> delivered[j]) by {
        if kept(s, delivered).contains(s[j]) {
            let i = choose|i: int| 0 <= i < s.len() && delivered[i] && s[i] == s[j];
            assert(i == j);
        }
    }
}

impl ClientRegistry {
    /// The identifiers of the registered clients, in registration order.
    pub closed spec fn ids(&self) -> Seq<u64> {
        self.clients@.map_values(|c: ClientHandle| c.id)
    }

    /// Every offer made so far: the client's identifier and the message.
    pub closed spec fn offers(&self) -> Seq<(u64, Seq<u8>)> {
        self.offered@
    }

    pub open spec fn wf(&self) -> bool {
        self.ids().no_duplicates()
    }

    pub fn new() -> (r: Self)
        ensures
            r.wf(),
            r.ids() == Seq::<u64>::empty(),
            r.offers() == Seq::<(u64, Seq<u8>)>::empty(),
    {
        let r = ClientRegistry { clients: Vec::new(), offered: Ghost(Seq::empty()) };
        assert(r.ids() =~= Seq::<u64>::empty());
        r
    }

    pub fn len(&self) -> (r: usize)
        ensures
            r == self.ids().len(),
    {
        self.clients.len()
    }

    pub fn contains(&self, id: u64) -> (r: bool)
        ensures
            r == self.ids().contains(id),
    {
        let mut i: usize = 0;
        while i < self.clients.len()
            invariant
                i <= self.ids().len(),
                forall|j: int| 0 <= j < i ==> self.ids()[j] != id,
            decreases self.ids().len() - i,
        {
            if self.clients[i].id == id {
                assert(self.ids()[i as int] == id);
                return true;
            }
            i = i + 1;
        }
        false
    }

    /// Adds a client at the end; an identifier already registered is kept
    /// as it is, and the call reports `false`.
    pub fn register(&mut self, id: u64, sender: Sender<Vec<u8>>) -> (added: bool)
        requires
            old(self).wf(),
        ensures
            final(self).wf(),
            final(self).offers() == old(self).offers(),
            added == !old(self).ids().contains(id),
            final(self).ids() == if added {
                old(self).ids().push(id)
            } else {
                old(self).ids()
            },
    {
        if self.contains(id) {
            return false;
        }
        self.clients.push(ClientHandle { id, sender });
        assert(self.ids() =~= old(self).ids().push(id));
        true
    }

    /// Keeps the clients whose flag is set, in their order.
    fn retain_flagged(&mut self, keep: &Vec<bool>)
        requires
            old(self).wf(),
            keep@.len() == old(self).ids().len(),
        ensures
            final(self).wf(),
            final(self).ids() == kept(old(self).ids(), keep@),
            final(self).offers() == old(self).offers(),
    {
        let ghost s = self.ids();
        let ghost f = keep@;
        let n = self.clients.len();
        let mut i: usize = n;
        assert(s.subrange(n as int, n as int) =~= Seq::<u64>::empty());
        assert(s.subrange(0, n as int) + kept(Seq::<u64>::empty(), f.subrange(n as int, n as int))
            =~= s);
        while i > 0
            invariant
                i <= n == s.len() == f.len(),
                f == keep@,
                self.ids() == s.subrange(0, i as int) + kept(
                    s.subrange(i as int, n as int),
                    f.subrange(i as int, n as int),
                ),
                self.offers() == old(self).offers(),
            decreases i,
        {
            let j = i - 1;
            let ghost t = s.subrange(j as int, n as int);
            let ghost g = f.subrange(j as int, n as int);
            let ghost rest = kept(s.subrange(i as int, n as int), f.subrange(i as int, n as int));
            proof {
                assert(t.subrange(1, t.len() as int) =~= s.subrange(i as int, n as int));
                assert(g.subrange(1, g.len() as int) =~= f.subrange(i as int, n as int));
                assert(t[0] == s[j as int]);
                assert(g[0] == f[j as int]);
                if f[j as int] {
                    assert(kept(t, g) == seq![s[j as int]] + rest);
                } else {
                    assert(kept(t, g) =~= rest);
                }
                assert(self.clients@.len() == self.ids().len());
                assert(s.subrange(0, i as int) =~= s.subrange(0, j as int).push(s[j as int]));
            }
            if !keep[j] {
                let ghost before = self.clients@;
                self.clients.remove(j);
                assert(self.ids() =~= before.map_values(|c: ClientHandle| c.id).remove(j as int));
                assert(self.ids() =~= s.subrange(0, j as int) + kept(t, g));
            } else {
                assert(self.ids() =~= s.subrange(0, j as int) + kept(
                    s.subrange(j as int, n as int),
                    f.subrange(j as int, n as int),
                ));
            }
            i = j;
        }
        assert(s.subrange(0, 0) + kept(s, f) =~= kept(s, f));
        assert(s.subrange(0, n as int) =~= s);
        assert(f.subrange(0, n as int) =~= f);
        proof {
            lemma_kept_members(s, f);
        }
    }

    /// Removes the client with identifier `id`, if it is registered.
    pub fn unregister(&mut self, id: u64)
        requires
            old(self).wf(),
        ensures
            final(self).wf(),
            final(self).ids() == kept(old(self).ids(), all_but(old(self).ids(), id)),
            final(self).offers() == old(self).offers(),
    {
        let n = self.clients.len();
        let mut keep: Vec<bool> = Vec::new();
        let mut i: usize = 0;
        while i < n
            invariant
                i <= n == self.ids().len(),
                keep@ =~= all_but(self.ids(), id).subrange(0, i as int),
            decreases n - i,
        {
            assert(self.clients@[i as int].id == self.ids()[i as int]);
            keep.push(self.clients[i].id != id);
            i = i + 1;
        }
        assert(all_but(self.ids(), id).subrange(0, n as int) =~= all_but(self.ids(), id));
        self.retain_flagged(&keep);
    }

    /// Offers `message`, unchanged, to every registered client's channel in
    /// registration order, without waiting on any, and drops the clients
    /// that did not take it. Returns, for each client in registration
    /// order, whether it took the message.
    pub fn broadcast(&mut self, message: &Vec<u8>) -> (delivered: Vec<bool>)
        requires
            old(self).wf(),
        ensures
            final(self).wf(),
            delivered@.len() == old(self).ids().len(),
            final(self).ids() == kept(old(self).ids(), delivered@),
            final(self).offers() == old(self).offers() + old(self).ids().map_values(
                |id: u64| (id, message@),
            ),
    {
        let n = self.clients.len();
        let mut delivered: Vec<bool> = Vec::new();
        let mut i: usize = 0;
        while i < n
            invariant
                i <= n == self.ids().len(),
                self.wf(),
                self.ids() == old(self).ids(),
                delivered@.len() == i,
                self.offers() == old(self).offers() + old(self).ids().subrange(
                    0,
                    i as int,
                ).map_values(|id: u64| (id, message@)),
            decreases n - i,
        {
            let ok = try_deliver(&self.clients[i].sender, message);
            proof {
                assert(self.clients@[i as int].id == self.ids()[i as int]);
                assert(old(self).ids().subrange(0, i as int + 1).map_values(
                    |id: u64| (id, message@),
                ) =~= old(self).ids().subrange(0, i as int).map_values(|id: u64| (id, message@)).push(
                    (self.ids()[i as int], message@),
                ));
            }
            self.offered = Ghost(self.offered@.push((self.clients@[i as int].id, message@)));
            delivered.push(ok);
            i = i + 1;
        }
        assert(old(self).ids().subrange(0, n as int) =~= old(self).ids());
        self.retain_flagged(&delivered);
        delivered
    }
}

} // verus!
