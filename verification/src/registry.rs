//! The connection registry and broadcaster: the one piece of state shared
//! by all connections.
//!
//! Each registered connection owns an ordered queue of pending outbound
//! messages inside its entry.  Broadcasting appends to the queue of every
//! entry but the sender's; a connection's write flow drains its own queue
//! from the front, so per-recipient delivery order is enqueue order.  The
//! process wraps the registry in its one lock and holds it for the
//! duration of a single operation.

use vstd::prelude::*;

verus! {

/// One registered connection: its identity and its pending outbound
/// messages, oldest first.
pub struct RegistryEntry {
    pub id: u64,
    pub queue: Vec<String>,
}

/// No two entries share an identity.
pub open spec fn unique_ids(entries: Seq<RegistryEntry>) -> bool {
    forall|i: int, j: int| 0 <= i < j < entries.len() ==> entries[i].id != entries[j].id
}

/// Some entry carries this identity.
pub open spec fn spec_has_id(entries: Seq<RegistryEntry>, id: u64) -> bool {
    exists|i: int| 0 <= i < entries.len() && entries[i].id == id
}

/// The mathematical content of the registry: identities paired with the
/// views of their queued messages, in registration order.
pub open spec fn spec_model(entries: Seq<RegistryEntry>) -> Seq<(u64, Seq<Seq<char>>)> {
    Seq::new(entries.len(), |i: int| (entries[i].id, entries[i].queue.deep_view()))
}

/// What one broadcast does to the model: every entry whose identity
/// differs from the sender's gains the message at the tail of its queue;
/// the sender's own entries are untouched; order and identities are kept.
pub open spec fn spec_broadcast(
    m: Seq<(u64, Seq<Seq<char>>)>,
    sender: u64,
    text: Seq<char>,
) -> Seq<(u64, Seq<Seq<char>>)> {
    Seq::new(
        m.len(),
        |i: int|
            if m[i].0 == sender {
                m[i]
            } else {
                (m[i].0, m[i].1.push(text))
            },
    )
}

/// The shared collection mapping connection identity to its outbound
/// queue.  Exclusive access for the duration of each operation is the
/// caller's duty; every operation here is a single read-modify-write.
pub struct Registry {
    entries: Vec<RegistryEntry>,
}

impl View for Registry {
    type V = Seq<RegistryEntry>;

    closed spec fn view(&self) -> Seq<RegistryEntry> {
        self.entries@
    }
}

impl Registry {
    /// Identities are unique: the registry's invariant.
    pub open spec fn wf(self) -> bool {
        unique_ids(self@)
    }

    /// An empty registry.
    pub fn new() -> (r: Self)
        ensures
            r.wf(),
            r@ == Seq::<RegistryEntry>::empty(),
    {
        let r = Registry { entries: Vec::new() };
        proof {
            assert(r@ =~= Seq::<RegistryEntry>::empty());
        }
        r
    }

    /// True when some entry carries this identity.
    pub fn has_id(&self, id: u64) -> (r: bool)
        ensures
            r == spec_has_id(self@, id),
    {
        let mut i: usize = 0;
        while i < self.entries.len()
            invariant
                i <= self.entries@.len(),
                forall|j: int| 0 <= j < i ==> self@[j].id != id,
            decreases self.entries@.len() - i,
        {
            if self.entries[i].id == id {
                return true;
            }
            i = i + 1;
        }
        false
    }

    /// Inserts a fresh connection with an empty outbound queue at the end
    /// of the registry.
    pub fn register(&mut self, id: u64)
        requires
            old(self).wf(),
            !spec_has_id(old(self)@, id),
        ensures
            final(self).wf(),
            final(self)@.len() == old(self)@.len() + 1,
            forall|i: int| 0 <= i < old(self)@.len() ==> final(self)@[i] == old(self)@[i],
            final(self)@.last().id == id,
            final(self)@.last().queue@ == Seq::<String>::empty(),
            spec_model(final(self)@) == spec_model_register(spec_model(old(self)@), id),
    {
        self.entries.push(RegistryEntry { id, queue: Vec::new() });
        proof {
            assert(self@.last().queue.deep_view() =~= Seq::<Seq<char>>::empty());
            assert(spec_model(self@) =~= spec_model_register(spec_model(old(self)@), id));
        }
    }

    /// Removes the entry with this identity, if present, keeping every
    /// other entry in order.  Removal is the only operation that ever
    /// takes an entry out.
    pub fn deregister(&mut self, id: u64)
        requires
            old(self).wf(),
        ensures
            final(self).wf(),
            !spec_has_id(final(self)@, id),
            !spec_has_id(old(self)@, id) ==> final(self)@ == old(self)@,
            spec_has_id(old(self)@, id) ==> exists|k: int|
                0 <= k < old(self)@.len() && old(self)@[k].id == id && final(self)@ == old(self)@.remove(k),
            spec_model(final(self)@) == spec_model_deregister(spec_model(old(self)@), id),
    {
        let mut i: usize = 0;
        while i < self.entries.len()
            invariant
                i <= self.entries@.len(),
                self@ == old(self)@,
                old(self).wf(),
                forall|j: int| 0 <= j < i ==> self@[j].id != id,
            decreases self.entries@.len() - i,
        {
            if self.entries[i].id == id {
                let _ = self.entries.remove(i);
                proof {
                    let k = i as int;
                    let before = old(self)@;
                    assert(self@ == before.remove(k));
                    assert(forall|j: int|
                        0 <= j < self@.len() ==> self@[j] == (if j < k {
                            before[j]
                        } else {
                            before[j + 1]
                        }));
                    assert(!spec_has_id(self@, id));
                    assert(unique_ids(self@));
                    let mm = spec_model(before);
                    assert(forall|j: int| 0 <= j < mm.len() && j != k ==> mm[j].0 != id);
                    lemma_model_deregister_unique_remove(mm, id, k);
                    assert(spec_model(self@) =~= mm.remove(k));
                }
                return;
            }
            i = i + 1;
        }
        proof {
            let mm = spec_model(old(self)@);
            assert(!model_has_id(mm, id)) by {
                if model_has_id(mm, id) {
                    let w = choose|w: int| 0 <= w < mm.len() && mm[w].0 == id;
                    assert(old(self)@[w].id == id);
                }
            }
            lemma_model_deregister_absent(mm, id);
        }
    }

    /// Appends the message to the queue of every entry whose identity
    /// differs from the sender's, in registry order, leaving identities
    /// and the sender's own queue untouched.
    pub fn broadcast_except(&mut self, sender_id: u64, message: &String)
        requires
            old(self).wf(),
        ensures
            final(self).wf(),
            spec_model(final(self)@) == spec_broadcast(
                spec_model(old(self)@),
                sender_id,
                message@,
            ),
            final(self)@.len() == old(self)@.len(),
            forall|i: int| 0 <= i < old(self)@.len() ==> final(self)@[i].id == old(self)@[i].id,
            forall|i: int|
                0 <= i < old(self)@.len() && old(self)@[i].id == sender_id ==> final(self)@[i]
                    == old(self)@[i],
            forall|i: int|
                0 <= i < old(self)@.len() && old(self)@[i].id != sender_id ==> final(self)@[i].queue@ == old(self)@[i].queue@.push(*message),
    {
        let mut i: usize = 0;
        while i < self.entries.len()
            invariant
                i <= self.entries@.len(),
                self@.len() == old(self)@.len(),
                old(self).wf(),
                forall|j: int| 0 <= j < self@.len() ==> self@[j].id == old(self)@[j].id,
                forall|j: int| i <= j < self@.len() ==> self@[j] == old(self)@[j],
                forall|j: int|
                    0 <= j < i && old(self)@[j].id == sender_id ==> self@[j] == old(self)@[j],
                forall|j: int|
                    0 <= j < i && old(self)@[j].id != sender_id ==> self@[j].queue@ == old(self)@[j].queue@.push(*message) && self@[j].id == old(self)@[j].id,
            decreases self.entries@.len() - i,
        {
            if self.entries[i].id != sender_id {
                self.entries[i].queue.push(message.clone());
            }
            i = i + 1;
        }
        proof {
            assert(unique_ids(self@));
            let mb = spec_broadcast(spec_model(old(self)@), sender_id, message@);
            assert forall|k: int| 0 <= k < self@.len() implies spec_model(self@)[k] == mb[k] by {
                if old(self)@[k].id != sender_id {
                    assert(self@[k].queue.deep_view() =~= old(self)@[k].queue.deep_view().push(
                        message@,
                    ));
                }
            }
            assert(spec_model(self@) =~= mb);
        }
    }

    /// Takes the oldest pending message of this connection's queue, if
    /// the connection is registered and has one, leaving every other
    /// entry untouched.
    pub fn pop_pending(&mut self, id: u64) -> (r: Option<String>)
        requires
            old(self).wf(),
        ensures
            final(self).wf(),
            final(self)@.len() == old(self)@.len(),
            forall|i: int|
                0 <= i < old(self)@.len() && old(self)@[i].id != id ==> final(self)@[i] == old(self)@[i],
            !spec_has_id(old(self)@, id) ==> r is None && final(self)@ == old(self)@,
            forall|i: int|
                0 <= i < old(self)@.len() && old(self)@[i].id == id ==> {
                    if old(self)@[i].queue@.len() == 0 {
                        r is None && final(self)@[i] == old(self)@[i]
                    } else {
                        (r matches Some(s) && s == old(self)@[i].queue@[0]) && final(self)@[i].id == id && final(self)@[i].queue@ == old(self)@[i].queue@.drop_first()
                    }
                },
    {
        let mut i: usize = 0;
        while i < self.entries.len()
            invariant
                i <= self.entries@.len(),
                self@ == old(self)@,
                old(self).wf(),
                forall|j: int| 0 <= j < i ==> self@[j].id != id,
            decreases self.entries@.len() - i,
        {
            if self.entries[i].id == id {
                if self.entries[i].queue.len() == 0 {
                    return None;
                }
                let s = self.entries[i].queue.remove(0);
                proof {
                    assert(self@[i as int].queue@ =~= old(self)@[i as int].queue@.drop_first());
                }
                return Some(s);
            }
            i = i + 1;
        }
        None
    }
}

/// Broadcasting from one connection reaches exactly the others: with two
/// further registered connections, both receive the message at the tail
/// of their queues (so per-recipient order is send order), and nothing is
/// delivered back to the sender.
pub proof fn lemma_broadcast_delivers_to_others(
    m: Seq<(u64, Seq<Seq<char>>)>,
    sender: u64,
    b: int,
    c: int,
    text: Seq<char>,
)
    requires
        0 <= b < m.len(),
        0 <= c < m.len(),
        m[b].0 != sender,
        m[c].0 != sender,
    ensures
        spec_broadcast(m, sender, text)[b].1 == m[b].1.push(text),
        spec_broadcast(m, sender, text)[c].1 == m[c].1.push(text),
        forall|j: int| 0 <= j < m.len() && m[j].0 == sender ==> spec_broadcast(m, sender, text)[j] == m[j],
{
}

/// Two broadcasts from any senders reach a recipient registered through
/// both in their send order: the first message sits closer to the front
/// of the queue, which the write flow drains from the front.
pub proof fn lemma_broadcast_order_per_recipient(
    m: Seq<(u64, Seq<Seq<char>>)>,
    sender1: u64,
    text1: Seq<char>,
    sender2: u64,
    text2: Seq<char>,
    r: int,
)
    requires
        0 <= r < m.len(),
        m[r].0 != sender1,
        m[r].0 != sender2,
    ensures
        spec_broadcast(spec_broadcast(m, sender1, text1), sender2, text2)[r].1 == m[r].1.push(
            text1,
        ).push(text2),
{
}

/// A deregistered connection is excluded from every subsequent broadcast:
/// once no entry carries its identity, broadcasting any message from
/// anyone delivers nothing to it, because delivery only ever touches the
/// queues of present entries.
pub proof fn lemma_deregistered_receives_nothing(
    m: Seq<(u64, Seq<Seq<char>>)>,
    gone: u64,
    sender: u64,
    text: Seq<char>,
)
    requires
        forall|i: int| 0 <= i < m.len() ==> m[i].0 != gone,
    ensures
        forall|i: int|
            0 <= i < m.len() ==> spec_broadcast(m, sender, text)[i].0 != gone,
        spec_broadcast(m, sender, text).len() == m.len(),
{
}

/// Registration, as the model sees it: a fresh identity with an empty
/// queue appears at the end.
pub open spec fn spec_model_register(m: Seq<(u64, Seq<Seq<char>>)>, id: u64) -> Seq<
    (u64, Seq<Seq<char>>),
> {
    m.push((id, Seq::empty()))
}

/// Deregistration, as the model sees it: every entry with the identity
/// disappears, the rest keep their order.
pub open spec fn spec_model_deregister(m: Seq<(u64, Seq<Seq<char>>)>, id: u64) -> Seq<
    (u64, Seq<Seq<char>>),
>
    decreases m.len(),
{
    if m.len() == 0 {
        m
    } else if m[0].0 == id {
        spec_model_deregister(m.drop_first(), id)
    } else {
        seq![m[0]] + spec_model_deregister(m.drop_first(), id)
    }
}

/// Some model entry carries this identity.
pub open spec fn model_has_id(m: Seq<(u64, Seq<Seq<char>>)>, id: u64) -> bool {
    exists|i: int| 0 <= i < m.len() && m[i].0 == id
}

/// No two model entries share an identity.
pub open spec fn unique_model_ids(m: Seq<(u64, Seq<Seq<char>>)>) -> bool {
    forall|i: int, j: int| 0 <= i < j < m.len() ==> m[i].0 != m[j].0
}

proof fn lemma_model_deregister_sound(m: Seq<(u64, Seq<Seq<char>>)>, id: u64)
    ensures
        !model_has_id(spec_model_deregister(m, id), id),
        forall|x: u64| model_has_id(spec_model_deregister(m, id), x) ==> model_has_id(m, x),
        unique_model_ids(m) ==> unique_model_ids(spec_model_deregister(m, id)),
    decreases m.len(),
{
    if m.len() == 0 {
    } else {
        let tail = m.drop_first();
        lemma_model_deregister_sound(tail, id);
        assert forall|x: u64| model_has_id(tail, x) implies model_has_id(m, x) by {
            let i = choose|i: int| 0 <= i < tail.len() && tail[i].0 == x;
            assert(m[i + 1].0 == x);
        }
        if m[0].0 == id {
            assert(spec_model_deregister(m, id) == spec_model_deregister(tail, id));
            if unique_model_ids(m) {
                assert(unique_model_ids(tail));
            }
        } else {
            let r = seq![m[0]] + spec_model_deregister(tail, id);
            assert(spec_model_deregister(m, id) == r);
            assert forall|x: u64| model_has_id(r, x) implies model_has_id(m, x) by {
                let i = choose|i: int| 0 <= i < r.len() && r[i].0 == x;
                if i == 0 {
                    assert(m[0].0 == x);
                } else {
                    assert(spec_model_deregister(tail, id)[i - 1].0 == x);
                    assert(model_has_id(tail, x));
                }
            }
            assert(!model_has_id(r, id)) by {
                if model_has_id(r, id) {
                    let i = choose|i: int| 0 <= i < r.len() && r[i].0 == id;
                    if i > 0 {
                        assert(spec_model_deregister(tail, id)[i - 1].0 == id);
                        assert(model_has_id(spec_model_deregister(tail, id), id));
                    }
                }
            }
            if unique_model_ids(m) {
                assert(unique_model_ids(tail));
                let rt = spec_model_deregister(tail, id);
                assert forall|i: int, j: int| 0 <= i < j < r.len() implies r[i].0 != r[j].0 by {
                    if i == 0 {
                        assert(r[j].0 == rt[j - 1].0);
                        assert(model_has_id(tail, rt[j - 1].0));
                        let w = choose|w: int| 0 <= w < tail.len() && tail[w].0 == rt[j - 1].0;
                        assert(m[0].0 != m[w + 1].0);
                    } else {
                        assert(r[i].0 == rt[i - 1].0 && r[j].0 == rt[j - 1].0);
                        assert(unique_model_ids(rt));
                    }
                }
            }
        }
    }
}

proof fn lemma_model_deregister_absent(m: Seq<(u64, Seq<Seq<char>>)>, id: u64)
    requires
        !model_has_id(m, id),
    ensures
        spec_model_deregister(m, id) == m,
    decreases m.len(),
{
    if m.len() == 0 {
        assert(spec_model_deregister(m, id) =~= m);
    } else {
        let tail = m.drop_first();
        assert(!model_has_id(tail, id)) by {
            if model_has_id(tail, id) {
                let i = choose|i: int| 0 <= i < tail.len() && tail[i].0 == id;
                assert(m[i + 1].0 == id);
            }
        }
        lemma_model_deregister_absent(tail, id);
        assert(m[0].0 != id);
        assert(seq![m[0]] + tail =~= m);
    }
}

proof fn lemma_model_deregister_unique_remove(m: Seq<(u64, Seq<Seq<char>>)>, id: u64, k: int)
    requires
        0 <= k < m.len(),
        m[k].0 == id,
        forall|j: int| 0 <= j < m.len() && j != k ==> m[j].0 != id,
    ensures
        spec_model_deregister(m, id) == m.remove(k),
    decreases m.len(),
{
    let tail = m.drop_first();
    if k == 0 {
        assert(!model_has_id(tail, id)) by {
            if model_has_id(tail, id) {
                let i = choose|i: int| 0 <= i < tail.len() && tail[i].0 == id;
                assert(m[i + 1].0 == id);
            }
        }
        lemma_model_deregister_absent(tail, id);
        assert(tail =~= m.remove(0));
    } else {
        assert(m[0].0 != id);
        assert(forall|j: int| 0 <= j < tail.len() && j != k - 1 ==> tail[j].0 != id);
        lemma_model_deregister_unique_remove(tail, id, k - 1);
        assert(seq![m[0]] + tail.remove(k - 1) =~= m.remove(k));
    }
}

/// One whole registry operation, for stating how interleavings behave.
pub enum RegistryOp {
    /// `register` of a fresh identity.
    Register(u64),
    /// `deregister` of an identity.
    Deregister(u64),
    /// `broadcast_except` from a sender.
    Broadcast(u64, Seq<char>),
}

/// The model after one whole operation.
pub open spec fn spec_apply(m: Seq<(u64, Seq<Seq<char>>)>, op: RegistryOp) -> Seq<
    (u64, Seq<Seq<char>>),
> {
    match op {
        RegistryOp::Register(id) => spec_model_register(m, id),
        RegistryOp::Deregister(id) => spec_model_deregister(m, id),
        RegistryOp::Broadcast(sender, text) => spec_broadcast(m, sender, text),
    }
}

/// The model after a whole sequence of operations, applied in order.
pub open spec fn spec_apply_all(m: Seq<(u64, Seq<Seq<char>>)>, ops: Seq<RegistryOp>) -> Seq<
    (u64, Seq<Seq<char>>),
>
    decreases ops.len(),
{
    if ops.len() == 0 {
        m
    } else {
        spec_apply_all(spec_apply(m, ops[0]), ops.drop_first())
    }
}

/// Each registration in the sequence uses an identity absent at its turn,
/// as the process-wide monotonic identity generator guarantees.
pub open spec fn registrations_fresh(m: Seq<(u64, Seq<Seq<char>>)>, ops: Seq<RegistryOp>) -> bool
    decreases ops.len(),
{
    if ops.len() == 0 {
        true
    } else {
        &&& (ops[0] matches RegistryOp::Register(id) ==> !model_has_id(m, id))
        &&& registrations_fresh(spec_apply(m, ops[0]), ops.drop_first())
    }
}

/// Interleaved whole operations never corrupt the registry: however many
/// register, deregister and broadcast calls from however many connections
/// are serialized by the registry's lock, identities stay unique — no
/// entry is duplicated — and each step's full effect is the exact model
/// operation above — no entry is lost except the one a deregister names.
pub proof fn lemma_interleaved_ops_preserve_integrity(
    m: Seq<(u64, Seq<Seq<char>>)>,
    ops: Seq<RegistryOp>,
)
    requires
        unique_model_ids(m),
        registrations_fresh(m, ops),
    ensures
        unique_model_ids(spec_apply_all(m, ops)),
    decreases ops.len(),
{
    if ops.len() > 0 {
        let m1 = spec_apply(m, ops[0]);
        match ops[0] {
            RegistryOp::Register(id) => {
                assert(unique_model_ids(m1)) by {
                    assert forall|i: int, j: int| 0 <= i < j < m1.len() implies m1[i].0 != m1[j].0 by {
                        if j == m1.len() - 1 {
                            assert(m1[j].0 == id);
                            assert(m[i].0 != id);
                        }
                    }
                }
            },
            RegistryOp::Deregister(id) => {
                lemma_model_deregister_sound(m, id);
            },
            RegistryOp::Broadcast(sender, text) => {
                assert(unique_model_ids(m1)) by {
                    assert(forall|i: int| 0 <= i < m.len() ==> m1[i].0 == m[i].0);
                }
            },
        }
        lemma_interleaved_ops_preserve_integrity(m1, ops.drop_first());
    }
}

} // verus!
