//! The participants connected to the host, in the order in which they joined.

use vstd::prelude::*;

verus! {

/// A participant as a value: its id and its display name.
pub type Entry = (u32, Seq<char>);

/// A registered, named, connected peer of the host.
pub struct Participant {
    pub id: u32,
    pub name: String,
}

impl View for Participant {
    type V = Entry;

    open spec fn view(&self) -> Entry {
        (self.id, self.name@)
    }
}

/// No two entries share an id.
pub open spec fn ids_unique(s: Seq<Entry>) -> bool {
    forall|i: int, j: int| 0 <= i < j < s.len() ==> s[i].0 != s[j].0
}

/// Whether some entry has id `id`.
pub open spec fn has_id(s: Seq<Entry>, id: u32) -> bool {
    exists|i: int| 0 <= i < s.len() && s[i].0 == id
}

/// Whether an entry belongs to someone other than `id`.
pub open spec fn is_other(id: u32) -> spec_fn(Entry) -> bool {
    |e: Entry| e.0 != id
}

/// The entries whose id is not `id`, in order.
pub open spec fn others(s: Seq<Entry>, id: u32) -> Seq<Entry> {
    s.filter(is_other(id))
}

/// The ids of the entries other than `id`, in order.
pub open spec fn ids_except(s: Seq<Entry>, id: u32) -> Seq<u32> {
    others(s, id).map_values(|e: Entry| e.0)
}

/// The names of the entries other than `id`, in order.
pub open spec fn names_except(s: Seq<Entry>, id: u32) -> Seq<Seq<char>> {
    others(s, id).map_values(|e: Entry| e.1)
}

/// The participant list. It is owned by the host's single event loop, so
/// every change to it happens in one total order.
pub struct Registry {
    entries: Vec<Participant>,
}

impl View for Registry {
    type V = Seq<Entry>;

    closed spec fn view(&self) -> Seq<Entry> {
        self.entries@.map_values(|p: Participant| p@)
    }
}

/// Filtering one more element on the right extends the result by that
/// element when it passes.
proof fn lemma_others_step(s: Seq<Entry>, i: int, id: u32)
    requires
        0 <= i < s.len(),
    ensures
        others(s.subrange(0, i + 1), id) == if s[i].0 != id {
            others(s.subrange(0, i), id).push(s[i])
        } else {
            others(s.subrange(0, i), id)
        },
{
    let t = s.subrange(0, i + 1);
    assert(t.drop_last() =~= s.subrange(0, i));
    assert(t.last() == s[i]);
    assert(is_other(id)(t.last()) == (s[i].0 != id));
    reveal(Seq::filter);
}

impl Registry {
    /// Whether the ids are unique.
    pub open spec fn wf(&self) -> bool {
        ids_unique(self@)
    }

    /// An empty registry.
    pub fn new() -> (r: Registry)
        ensures
            r@ == Seq::<Entry>::empty(),
            r.wf(),
    {
        let r = Registry { entries: Vec::new() };
        assert(r@ =~= Seq::<Entry>::empty());
        r
    }

    /// The number of participants.
    pub fn count(&self) -> (r: usize)
        ensures
            r == self@.len(),
    {
        self.entries.len()
    }

    /// Whether a participant with this id is registered.
    pub fn contains(&self, id: u32) -> (r: bool)
        ensures
            r == has_id(self@, id),
    {
        let mut i: usize = 0;
        while i < self.entries.len()
            invariant
                0 <= i <= self@.len(),
                self@.len() == self.entries@.len(),
                forall|k: int| 0 <= k < i ==> self@[k].0 != id,
            decreases self.entries@.len() - i,
        {
            if self.entries[i].id == id {
                assert(self@[i as int].0 == id);
                return true;
            }
            i = i + 1;
        }
        false
    }

    /// Appends a participant whose id is not registered yet.
    pub fn add(&mut self, participant: Participant)
        requires
            old(self).wf(),
            !has_id(old(self)@, participant.id),
        ensures
            final(self)@ == old(self)@.push(participant@),
            final(self).wf(),
    {
        let ghost before = self@;
        self.entries.push(participant);
        assert(self@ =~= before.push(participant@));
        assert forall|i: int, j: int| 0 <= i < j < self@.len() implies self@[i].0 != self@[j].0 by {
            if j == before.len() {
                assert(self@[i] == before[i]);
            }
        }
    }

    /// Removes the participant with id `id`; nothing happens when there is
    /// none.
    pub fn remove(&mut self, id: u32)
        requires
            old(self).wf(),
        ensures
            final(self)@ == others(old(self)@, id),
            final(self).wf(),
    {
        let ghost before = self@;
        let mut kept: Vec<Participant> = Vec::new();
        let mut i: usize = 0;
        while i < self.entries.len()
            invariant
                0 <= i <= before.len(),
                self@ == before,
                before.len() == self.entries@.len(),
                kept@.map_values(|p: Participant| p@) == others(before.subrange(0, i as int), id),
            decreases self.entries@.len() - i,
        {
            proof {
                lemma_others_step(before, i as int, id);
            }
            if self.entries[i].id != id {
                let ghost prev = kept@;
                let p = Participant { id: self.entries[i].id, name: self.entries[i].name.clone() };
                kept.push(p);
                assert(kept@.map_values(|p: Participant| p@) =~= prev.map_values(
                    |p: Participant| p@,
                ).push(before[i as int]));
            }
            i = i + 1;
        }
        assert(before.subrange(0, i as int) =~= before);
        self.entries = kept;
        proof {
            lemma_others_unique(before, id);
        }
    }

    /// The ids of all participants but `id`, in order: the recipients of what
    /// `id` sends.
    pub fn ids_except(&self, id: u32) -> (r: Vec<u32>)
        ensures
            r@ == ids_except(self@, id),
    {
        let mut r: Vec<u32> = Vec::new();
        let mut i: usize = 0;
        while i < self.entries.len()
            invariant
                0 <= i <= self@.len(),
                self@.len() == self.entries@.len(),
                r@ == ids_except(self@.subrange(0, i as int), id),
            decreases self.entries@.len() - i,
        {
            proof {
                lemma_others_step(self@, i as int, id);
            }
            if self.entries[i].id != id {
                r.push(self.entries[i].id);
            }
            assert(r@ =~= ids_except(self@.subrange(0, i + 1), id));
            i = i + 1;
        }
        assert(self@.subrange(0, i as int) =~= self@);
        r
    }

    /// The names of all participants but `id`, in order.
    pub fn names_except(&self, id: u32) -> (r: Vec<String>)
        ensures
            r@.map_values(|s: String| s@) == names_except(self@, id),
    {
        let mut r: Vec<String> = Vec::new();
        let mut i: usize = 0;
        while i < self.entries.len()
            invariant
                0 <= i <= self@.len(),
                self@.len() == self.entries@.len(),
                r@.map_values(|s: String| s@) == names_except(self@.subrange(0, i as int), id),
            decreases self.entries@.len() - i,
        {
            proof {
                lemma_others_step(self@, i as int, id);
            }
            let ghost prev = r@;
            if self.entries[i].id != id {
                r.push(self.entries[i].name.clone());
                assert(r@.map_values(|s: String| s@) =~= prev.map_values(|s: String| s@).push(
                    self@[i as int].1,
                ));
            }
            assert(r@.map_values(|s: String| s@) =~= names_except(self@.subrange(0, i + 1), id));
            i = i + 1;
        }
        assert(self@.subrange(0, i as int) =~= self@);
        r
    }
}

/// Dropping entries keeps ids unique.
pub proof fn lemma_others_unique(s: Seq<Entry>, id: u32)
    requires
        ids_unique(s),
    ensures
        ids_unique(others(s, id)),
        forall|e: Entry| others(s, id).contains(e) <==> (s.contains(e) && e.0 != id),
    decreases s.len(),
{
    broadcast use Seq::lemma_filter_contains_rev, Seq::lemma_filter_pred, Seq::lemma_filter_contains;
    if s.len() > 0 {
        let rest = s.drop_last();
        assert(ids_unique(rest));
        lemma_others_unique(rest, id);
        assert forall|e: Entry| others(s, id).contains(e) <==> (s.contains(e) && e.0 != id) by {
            if s.contains(e) && e.0 != id {
                let k = choose|k: int| 0 <= k < s.len() && s[k] == e;
                s.lemma_filter_contains(is_other(id), k);
            }
            if others(s, id).contains(e) {
                s.lemma_filter_contains_rev(is_other(id), e);
            }
        }
        let o = others(s, id);
        lemma_others_step(s, s.len() - 1, id);
        assert(s.subrange(0, s.len() - 1) =~= rest);
        assert(s.subrange(0, s.len() as int) =~= s);
        assert forall|i: int, j: int| 0 <= i < j < o.len() implies o[i].0 != o[j].0 by {
            if s.last().0 != id && j == o.len() - 1 {
                assert(o[i] == others(rest, id)[i]);
                assert(others(rest, id).contains(o[i]));
                assert(rest.contains(o[i]));
                let k = choose|k: int| 0 <= k < rest.len() && rest[k] == o[i];
                assert(s[k] == rest[k]);
            } else {
                assert(o[i] == others(rest, id)[i]);
            }
        }
    }
}

/// Fan-out reaches every participant other than `id` exactly once, and never
/// `id` itself.
pub proof fn lemma_exclusion(s: Seq<Entry>, id: u32)
    requires
        ids_unique(s),
    ensures
        ids_except(s, id).no_duplicates(),
        !ids_except(s, id).contains(id),
        forall|i: int| 0 <= i < s.len() && s[i].0 != id ==> ids_except(s, id).contains(#[trigger] s[i].0),
        forall|x: u32| ids_except(s, id).contains(x) ==> has_id(s, x),
{
    lemma_others_unique(s, id);
    let o = others(s, id);
    let r = ids_except(s, id);
    assert forall|x: u32| r.contains(x) implies has_id(s, x) && x != id by {
        let k = choose|k: int| 0 <= k < r.len() && r[k] == x;
        assert(o.contains(o[k]));
        assert(s.contains(o[k]));
        let m = choose|m: int| 0 <= m < s.len() && s[m] == o[k];
        assert(s[m].0 == x);
    }
    assert forall|i: int| 0 <= i < s.len() && s[i].0 != id implies r.contains(#[trigger] s[i].0) by {
        assert(s.contains(s[i]));
        assert(o.contains(s[i]));
        let k = choose|k: int| 0 <= k < o.len() && o[k] == s[i];
        assert(r[k] == s[i].0);
    }
}

} // verus!
