//! The frame-persistent widget state store.
//!
//! An immediate-mode GUI rebuilds every widget each frame, so state that
//! must survive a frame (an "open" flag, the index of a dragged point)
//! lives in one store, keyed by a stable widget identity.  An identity is
//! a sequence of caller-chosen name parts; two identities are equal
//! exactly when their parts are equal.  A lookup for an identity that was
//! never written returns the slot's default and inserts it; entries are
//! only ever overwritten, never removed.
//!
//! Reading a slot at some identity as a different slot kind than the one
//! stored there means two widgets collided on one identity; that is a
//! caller error, excluded by precondition.

use vstd::prelude::*;

verus! {

/// A stable identity for one widget's persisted state: a sequence of
/// name parts, viewed as `Seq<u64>`.
pub struct WidgetId {
    parts: Vec<u64>,
}

impl View for WidgetId {
    type V = Seq<u64>;

    closed spec fn view(&self) -> Seq<u64> {
        self.parts@
    }
}

impl WidgetId {
    /// A fresh identity with one name part.
    pub fn new(name: u64) -> (id: WidgetId)
        ensures
            id@ == seq![name],
    {
        let mut parts: Vec<u64> = Vec::new();
        parts.push(name);
        proof {
            assert(parts@ =~= seq![name]);
        }
        WidgetId { parts }
    }

    /// The identity derived from this one by a disambiguating sub-name,
    /// as for a widget nested under another.
    pub fn child(&self, sub: u64) -> (id: WidgetId)
        ensures
            id@ == self@.push(sub),
    {
        let mut parts = self.copy_parts();
        parts.push(sub);
        WidgetId { parts }
    }

    /// An identity with the same parts as this one.
    pub fn duplicate(&self) -> (id: WidgetId)
        ensures
            id@ == self@,
    {
        WidgetId { parts: self.copy_parts() }
    }

    fn copy_parts(&self) -> (r: Vec<u64>)
        ensures
            r@ == self.parts@,
    {
        let mut r: Vec<u64> = Vec::new();
        let mut k: usize = 0;
        while k < self.parts.len()
            invariant
                k <= self.parts.len(),
                r@ == self.parts@.take(k as int),
            decreases self.parts.len() - k,
        {
            r.push(self.parts[k]);
            proof {
                assert(self.parts@.take(k as int + 1) =~= self.parts@.take(k as int).push(
                    self.parts@[k as int],
                ));
            }
            k += 1;
        }
        proof {
            assert(self.parts@.take(self.parts@.len() as int) =~= self.parts@);
        }
        r
    }

    /// Whether this identity equals `other`: exactly when all parts match.
    pub fn matches(&self, other: &WidgetId) -> (r: bool)
        ensures
            r == (self@ == other@),
    {
        if self.parts.len() != other.parts.len() {
            return false;
        }
        let mut k: usize = 0;
        while k < self.parts.len()
            invariant
                k <= self.parts.len(),
                self.parts.len() == other.parts.len(),
                forall|j: int| 0 <= j < k ==> self.parts@[j] == other.parts@[j],
            decreases self.parts.len() - k,
        {
            if self.parts[k] != other.parts[k] {
                return false;
            }
            k += 1;
        }
        proof {
            assert(self@ =~= other@);
        }
        true
    }
}

/// One slot of persisted widget state: a small typed value.
#[derive(Clone, Copy, Debug)]
pub enum Slot {
    /// A boolean flag, such as a popup's "open" state; defaults to false.
    Flag(bool),
    /// The index of a curve point being dragged, if any; defaults to None.
    DragIndex(Option<usize>),
}

struct Entry {
    id: WidgetId,
    slot: Slot,
}

/// The map that a sequence of entries stands for; a later entry for the
/// same identity overrides an earlier one.
spec fn entries_map(s: Seq<Entry>) -> Map<Seq<u64>, Slot>
    decreases s.len(),
{
    if s.len() == 0 {
        Map::empty()
    } else {
        entries_map(s.drop_last()).insert(s.last().id@, s.last().slot)
    }
}

spec fn unique_ids(s: Seq<Entry>) -> bool {
    forall|i: int, j: int| 0 <= i < j < s.len() ==> s[i].id@ != s[j].id@
}

proof fn lemma_entries_map_index(s: Seq<Entry>, i: int)
    requires
        unique_ids(s),
        0 <= i < s.len(),
    ensures
        entries_map(s).contains_key(s[i].id@),
        entries_map(s)[s[i].id@] == s[i].slot,
    decreases s.len(),
{
    if i < s.len() - 1 {
        assert(unique_ids(s.drop_last()));
        lemma_entries_map_index(s.drop_last(), i);
        assert(s.drop_last()[i] == s[i]);
        assert(s.last().id@ != s[i].id@);
    }
}

proof fn lemma_entries_map_absent(s: Seq<Entry>, k: Seq<u64>)
    requires
        forall|i: int| 0 <= i < s.len() ==> s[i].id@ != k,
    ensures
        !entries_map(s).contains_key(k),
    decreases s.len(),
{
    if s.len() > 0 {
        lemma_entries_map_absent(s.drop_last(), k);
    }
}

proof fn lemma_entries_map_push(s: Seq<Entry>, e: Entry)
    ensures
        entries_map(s.push(e)) == entries_map(s).insert(e.id@, e.slot),
{
    assert(s.push(e).drop_last() =~= s);
    assert(s.push(e).last() == e);
}

proof fn lemma_entries_map_update(s: Seq<Entry>, i: int, e: Entry)
    requires
        unique_ids(s),
        0 <= i < s.len(),
        e.id@ == s[i].id@,
    ensures
        entries_map(s.update(i, e)) == entries_map(s).insert(e.id@, e.slot),
    decreases s.len(),
{
    let t = s.update(i, e);
    if i == s.len() - 1 {
        assert(t.drop_last() =~= s.drop_last());
        assert(t.last() == e);
        assert(entries_map(s.drop_last()).insert(e.id@, e.slot) =~= entries_map(
            s.drop_last(),
        ).insert(s[i].id@, s[i].slot).insert(e.id@, e.slot));
    } else {
        assert(unique_ids(s.drop_last()));
        assert(t.drop_last() =~= s.drop_last().update(i, e));
        assert(t.last() == s.last());
        lemma_entries_map_update(s.drop_last(), i, e);
        assert(s.drop_last()[i] == s[i]);
        assert(s.last().id@ != e.id@);
        assert(entries_map(s.drop_last()).insert(e.id@, e.slot).insert(s.last().id@, s.last().slot)
            =~= entries_map(s.drop_last()).insert(s.last().id@, s.last().slot).insert(
            e.id@,
            e.slot,
        ));
    }
}

/// The store: a mapping from widget identity to one slot of state,
/// viewed as `Map<Seq<u64>, Slot>`.
pub struct WidgetStore {
    entries: Vec<Entry>,
}

impl View for WidgetStore {
    type V = Map<Seq<u64>, Slot>;

    closed spec fn view(&self) -> Map<Seq<u64>, Slot> {
        entries_map(self.entries@)
    }
}

impl WidgetStore {
    /// Each identity keys at most one entry.
    pub closed spec fn wf(&self) -> bool {
        unique_ids(self.entries@)
    }

    /// An empty store.
    pub fn new() -> (s: WidgetStore)
        ensures
            s.wf(),
            s@ == Map::<Seq<u64>, Slot>::empty(),
    {
        WidgetStore { entries: Vec::new() }
    }

    fn find(&self, id: &WidgetId) -> (r: Option<usize>)
        ensures
            match r {
                Some(i) => i < self.entries@.len() && self.entries@[i as int].id@ == id@,
                None => forall|j: int| 0 <= j < self.entries@.len() ==> self.entries@[j].id@ != id@,
            },
    {
        let mut k: usize = 0;
        while k < self.entries.len()
            invariant
                k <= self.entries.len(),
                forall|j: int| 0 <= j < k ==> self.entries@[j].id@ != id@,
            decreases self.entries.len() - k,
        {
            if self.entries[k].id.matches(id) {
                return Some(k);
            }
            k += 1;
        }
        None
    }

    /// The slot stored at `id`; if none is stored, inserts `default` and
    /// returns it.  This is the store's one lookup: first access creates
    /// the entry.
    fn get_or_init(&mut self, id: &WidgetId, default: Slot) -> (slot: Slot)
        requires
            old(self).wf(),
        ensures
            final(self).wf(),
            slot == if old(self)@.contains_key(id@) {
                old(self)@[id@]
            } else {
                default
            },
            final(self)@ == old(self)@.insert(id@, slot),
    {
        match self.find(id) {
            Some(i) => {
                let slot = self.entries[i].slot;
                proof {
                    lemma_entries_map_index(self.entries@, i as int);
                    assert(self@.insert(id@, slot) =~= self@);
                }
                slot
            },
            None => {
                let e = Entry { id: id.duplicate(), slot: default };
                proof {
                    lemma_entries_map_absent(self.entries@, id@);
                    lemma_entries_map_push(self.entries@, e);
                }
                self.entries.push(e);
                default
            },
        }
    }

    /// Stores `slot` at `id`, overwriting a previous entry for `id`.
    fn put(&mut self, id: &WidgetId, slot: Slot)
        requires
            old(self).wf(),
        ensures
            final(self).wf(),
            final(self)@ == old(self)@.insert(id@, slot),
    {
        match self.find(id) {
            Some(i) => {
                let old_e = self.entries.remove(i);
                let e = Entry { id: old_e.id, slot };
                proof {
                    assert(self.entries@.insert(i as int, e) =~= old(self).entries@.update(
                        i as int,
                        e,
                    ));
                    lemma_entries_map_update(old(self).entries@, i as int, e);
                }
                self.entries.insert(i, e);
            },
            None => {
                let e = Entry { id: id.duplicate(), slot };
                proof {
                    lemma_entries_map_absent(self.entries@, id@);
                    lemma_entries_map_push(self.entries@, e);
                }
                self.entries.push(e);
            },
        }
    }

    /// The boolean flag at `id`, false if never written; first access
    /// inserts the default.  Requires that whatever is stored at `id` is
    /// a flag: another kind there means two widgets collided on one
    /// identity.
    pub fn get_flag(&mut self, id: &WidgetId) -> (v: bool)
        requires
            old(self).wf(),
            old(self)@.contains_key(id@) ==> old(self)@[id@] is Flag,
        ensures
            final(self).wf(),
            old(self)@.contains_key(id@) ==> old(self)@[id@] == Slot::Flag(v),
            !old(self)@.contains_key(id@) ==> v == false,
            final(self)@ == old(self)@.insert(id@, Slot::Flag(v)),
    {
        match self.get_or_init(id, Slot::Flag(false)) {
            Slot::Flag(v) => v,
            Slot::DragIndex(_) => {
                proof {
                    assert(false);
                }
                false
            },
        }
    }

    /// Stores the boolean flag `v` at `id`.
    pub fn set_flag(&mut self, id: &WidgetId, v: bool)
        requires
            old(self).wf(),
        ensures
            final(self).wf(),
            final(self)@ == old(self)@.insert(id@, Slot::Flag(v)),
    {
        self.put(id, Slot::Flag(v));
    }

    /// The drag index at `id`, None if never written; first access
    /// inserts the default.  Requires that whatever is stored at `id` is
    /// a drag index.
    pub fn get_drag(&mut self, id: &WidgetId) -> (v: Option<usize>)
        requires
            old(self).wf(),
            old(self)@.contains_key(id@) ==> old(self)@[id@] is DragIndex,
        ensures
            final(self).wf(),
            old(self)@.contains_key(id@) ==> old(self)@[id@] == Slot::DragIndex(v),
            !old(self)@.contains_key(id@) ==> v is None,
            final(self)@ == old(self)@.insert(id@, Slot::DragIndex(v)),
    {
        match self.get_or_init(id, Slot::DragIndex(None)) {
            Slot::DragIndex(v) => v,
            Slot::Flag(_) => {
                proof {
                    assert(false);
                }
                None
            },
        }
    }

    /// Stores the drag index `v` at `id`.
    pub fn set_drag(&mut self, id: &WidgetId, v: Option<usize>)
        requires
            old(self).wf(),
        ensures
            final(self).wf(),
            final(self)@ == old(self)@.insert(id@, Slot::DragIndex(v)),
    {
        self.put(id, Slot::DragIndex(v));
    }
}

} // verus!
