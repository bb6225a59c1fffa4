use vstd::prelude::*;

verus! {

/// The connection ids of a sequence of occupant entries, in order.
pub open spec fn ids_of<S>(entries: Seq<(usize, S)>) -> Seq<usize> {
    entries.map_values(|e: (usize, S)| e.0)
}

/// The occupants that receive a message sent by `sender`: every other one, in order.
pub open spec fn recipients_of(ids: Seq<usize>, sender: usize) -> Seq<usize> {
    ids.filter(|x: usize| x != sender)
}

/// The occupants of one room: each attached connection id with its outbound sink.
pub struct UserRegistry<S> {
    entries: Vec<(usize, S)>,
}

impl<S> View for UserRegistry<S> {
    type V = Seq<(usize, S)>;

    closed spec fn view(&self) -> Seq<(usize, S)> {
        self.entries@
    }
}

impl<S> UserRegistry<S> {
    /// The attached connection ids, in the order they were attached.
    pub open spec fn ids(&self) -> Seq<usize> {
        ids_of(self@)
    }

    /// Each connection id is attached at most once.
    pub open spec fn wf(&self) -> bool {
        self.ids().no_duplicates()
    }

    /// An empty registry.
    pub fn new() -> (r: Self)
        ensures
            r@ == Seq::<(usize, S)>::empty(),
            r.wf(),
    {
        UserRegistry { entries: Vec::new() }
    }

    /// The number of attached connections.
    pub fn len(&self) -> (r: usize)
        ensures
            r == self@.len(),
    {
        self.entries.len()
    }

    /// The position of `id` among the entries, if it is attached.
    fn position(&self, id: usize) -> (r: Option<usize>)
        ensures
            r matches Some(i) ==> i < self@.len() && self@[i as int].0 == id,
            r is None ==> !self.ids().contains(id),
    {
        let mut i: usize = 0;
        while i < self.entries.len()
            invariant
                i <= self@.len(),
                self@ == self.entries@,
                forall|j: int| 0 <= j < i ==> self@[j].0 != id,
            decreases self@.len() - i,
        {
            if self.entries[i].0 == id {
                return Some(i);
            }
            i = i + 1;
        }
        proof {
            assert forall|j: int| 0 <= j < self.ids().len() implies self.ids()[j] != id by {
                assert(self.ids()[j] == self@[j].0);
            }
        }
        None
    }

    /// Whether `id` is attached.
    pub fn contains(&self, id: usize) -> (r: bool)
        ensures
            r == self.ids().contains(id),
    {
        match self.position(id) {
            Some(i) => {
                proof {
                    assert(self.ids()[i as int] == id);
                }
                true
            },
            None => false,
        }
    }

    /// The outbound sink of `id`, if it is attached.
    pub fn sink(&self, id: usize) -> (r: Option<&S>)
        ensures
            r is None <==> !self.ids().contains(id),
            r matches Some(s) ==> exists|i: int|
                0 <= i < self@.len() && self@[i].0 == id && self@[i].1 == *s,
    {
        match self.position(id) {
            Some(i) => {
                proof {
                    assert(self.ids()[i as int] == id);
                }
                Some(&self.entries[i].1)
            },
            None => None,
        }
    }

    /// Attaches `id` with its sink. An id that is already attached is left as it is, and
    /// `false` is returned.
    pub fn attach(&mut self, id: usize, sink: S) -> (r: bool)
        requires
            old(self).wf(),
        ensures
            final(self).wf(),
            r == !old(self).ids().contains(id),
            r ==> final(self)@ == old(self)@.push((id, sink)),
            !r ==> final(self)@ == old(self)@,
    {
        if self.contains(id) {
            return false;
        }
        self.entries.push((id, sink));
        proof {
            assert(self.ids() =~= old(self).ids().push(id));
        }
        true
    }

    /// Detaches `id` and hands back its sink; `None`, with nothing changed, if it was not
    /// attached.
    pub fn detach(&mut self, id: usize) -> (r: Option<S>)
        requires
            old(self).wf(),
        ensures
            final(self).wf(),
            r is Some <==> old(self).ids().contains(id),
            final(self).ids().to_set() == old(self).ids().to_set().remove(id),
            r is None ==> final(self)@ == old(self)@,
            r matches Some(s) ==> exists|i: int|
                0 <= i < old(self)@.len() && old(self)@[i] == (id, s) && final(self)@
                    == old(self)@.remove(i),
    {
        match self.position(id) {
            None => {
                proof {
                    assert(self.ids().to_set() =~= old(self).ids().to_set().remove(id));
                }
                None
            },
            Some(i) => {
                let e = self.entries.remove(i);
                proof {
                    let before = old(self).ids();
                    let after = self.ids();
                    assert(after =~= before.remove(i as int));
                    assert(before[i as int] == id);
                    assert forall|x: usize| after.contains(x) <==> before.contains(x) && x != id by {
                        if after.contains(x) {
                            let k = choose|k: int| 0 <= k < after.len() && after[k] == x;
                            if k < i {
                                assert(before[k] == x);
                            } else {
                                assert(before[k + 1] == x);
                            }
                        }
                        if before.contains(x) && x != id {
                            let k = choose|k: int| 0 <= k < before.len() && before[k] == x;
                            if k < i {
                                assert(after[k] == x);
                            } else {
                                assert(k != i);
                                assert(after[k - 1] == x);
                            }
                        }
                    }
                    assert(after.to_set() =~= before.to_set().remove(id));
                    assert(after.no_duplicates());
                }
                Some(e.1)
            },
        }
    }

    /// The connection ids that a message from `sender` goes to: every attached one but the
    /// sender, each once.
    pub fn recipients(&self, sender: usize) -> (r: Vec<usize>)
        ensures
            r@ == recipients_of(self.ids(), sender),
    {
        let mut r: Vec<usize> = Vec::new();
        let mut i: usize = 0;
        while i < self.entries.len()
            invariant
                i <= self@.len(),
                self@ == self.entries@,
                r@ == recipients_of(self.ids().subrange(0, i as int), sender),
            decreases self@.len() - i,
        {
            let id = self.entries[i].0;
            proof {
                reveal(Seq::filter);
                let pre = self.ids().subrange(0, i as int + 1);
                assert(pre.drop_last() =~= self.ids().subrange(0, i as int));
                assert(pre.last() == id);
            }
            if id != sender {
                r.push(id);
            }
            i = i + 1;
        }
        proof {
            assert(self.ids().subrange(0, self@.len() as int) =~= self.ids());
        }
        r
    }
}

/// Hands out connection ids, each at most once over its lifetime.
pub struct IdGenerator {
    next: usize,
}

impl IdGenerator {
    /// The id that the next call of `fresh` hands out.
    pub closed spec fn next_id(&self) -> nat {
        self.next as nat
    }

    /// A generator whose first id is `first`.
    pub fn starting_at(first: usize) -> (r: Self)
        ensures
            r.next_id() == first,
    {
        IdGenerator { next: first }
    }

    /// Hands out the next id; `None` once the ids are exhausted.
    pub fn fresh(&mut self) -> (r: Option<usize>)
        ensures
            old(self).next_id() < usize::MAX ==> r == Some(old(self).next_id() as usize)
                && final(self).next_id() == old(self).next_id() + 1,
            old(self).next_id() >= usize::MAX ==> r is None && final(self).next_id()
                == old(self).next_id(),
    {
        if self.next == usize::MAX {
            return None;
        }
        let id = self.next;
        self.next = self.next + 1;
        Some(id)
    }
}

/// A message from `sender` reaches every other occupant and never the sender, each
/// recipient once.
pub proof fn lemma_broadcast_excludes_sender(ids: Seq<usize>, sender: usize)
    ensures
        forall|x: usize| #[trigger]
            recipients_of(ids, sender).contains(x) <==> ids.contains(x) && x != sender,
        ids.no_duplicates() ==> recipients_of(ids, sender).no_duplicates(),
    decreases ids.len(),
{
    if ids.len() > 0 {
        let pre = ids.drop_last();
        let last = ids.last();
        let r = recipients_of(ids, sender);
        let pr = recipients_of(pre, sender);
        lemma_broadcast_excludes_sender(pre, sender);
        assert(r == if last != sender { pr.push(last) } else { pr }) by {
            reveal(Seq::filter);
        }
        assert forall|x: usize| #[trigger] r.contains(x) <==> ids.contains(x) && x != sender by {
            if r.contains(x) {
                let k = choose|k: int| 0 <= k < r.len() && r[k] == x;
                if k < pr.len() {
                    assert(pr[k] == x);
                    assert(pr.contains(x));
                    assert(pre.contains(x));
                    let m = choose|m: int| 0 <= m < pre.len() && pre[m] == x;
                    assert(ids[m] == x);
                } else {
                    assert(ids[ids.len() - 1] == x);
                }
            }
            if ids.contains(x) && x != sender {
                let k = choose|k: int| 0 <= k < ids.len() && ids[k] == x;
                if k < ids.len() - 1 {
                    assert(pre[k] == x);
                    assert(pr.contains(x));
                    let m = choose|m: int| 0 <= m < pr.len() && pr[m] == x;
                    assert(r[m] == x);
                } else {
                    assert(r[r.len() - 1] == x);
                }
            }
        }
        if ids.no_duplicates() {
            assert(pre.no_duplicates()) by {
                assert forall|i: int, j: int|
                    0 <= i < pre.len() && 0 <= j < pre.len() && i != j implies pre[i] != pre[j] by {
                    assert(pre[i] == ids[i] && pre[j] == ids[j]);
                }
            }
            if last != sender {
                assert(!pr.contains(last)) by {
                    if pr.contains(last) {
                        let k = choose|k: int| 0 <= k < pre.len() && pre[k] == last;
                        assert(ids[k] == ids[ids.len() - 1]);
                    }
                }
                assert forall|i: int, j: int|
                    0 <= i < r.len() && 0 <= j < r.len() && i != j implies r[i] != r[j] by {
                    if i < pr.len() && j < pr.len() {
                        assert(r[i] == pr[i] && r[j] == pr[j]);
                    } else if i < pr.len() {
                        assert(r[i] == pr[i]);
                    } else if j < pr.len() {
                        assert(r[j] == pr[j]);
                    }
                }
            }
        }
    } else {
        assert(recipients_of(ids, sender) =~= Seq::<usize>::empty()) by {
            reveal(Seq::filter);
        }
    }
}

/// Once `gone` has been detached, a message from `sender` reaches exactly the occupants
/// that are neither of the two.
pub proof fn lemma_detached_receives_nothing(
    before: Seq<usize>,
    after: Seq<usize>,
    gone: usize,
    sender: usize,
)
    requires
        after.to_set() == before.to_set().remove(gone),
    ensures
        !recipients_of(after, sender).contains(gone),
        forall|x: usize| #[trigger]
            recipients_of(after, sender).contains(x) <==> before.contains(x) && x != sender && x
                != gone,
{
    lemma_broadcast_excludes_sender(after, sender);
    assert forall|x: usize| #[trigger]
        recipients_of(after, sender).contains(x) <==> before.contains(x) && x != sender && x
            != gone by {
        assert(after.contains(x) <==> after.to_set().contains(x));
        assert(before.contains(x) <==> before.to_set().contains(x));
    }
}

} // verus!
