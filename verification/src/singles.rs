use vstd::prelude::*;

verus! {

/// A cell and the value that it was found to hold.
pub type Forced = ((usize, usize), u8);

/// Whether one of `entries` is for the cell `pos`.
pub open spec fn has_key(entries: Seq<Forced>, pos: (usize, usize)) -> bool {
    exists|i: int| 0 <= i < entries.len() && (#[trigger] entries[i]).0 == pos
}

/// Whether no cell has two of `entries`.
pub open spec fn distinct_keys(entries: Seq<Forced>) -> bool {
    forall|i: int, j: int|
        0 <= i < j < entries.len() ==> (#[trigger] entries[i]).0 != (#[trigger] entries[j]).0
}

/// `entries` with `value` recorded for `pos`, unless `pos` already has an
/// entry: the first discovery stays.
pub open spec fn with_entry(entries: Seq<Forced>, pos: (usize, usize), value: u8) -> Seq<Forced> {
    if has_key(entries, pos) {
        entries
    } else {
        entries.push((pos, value))
    }
}

/// Whether `longer` begins with `shorter`.
pub open spec fn begins_with(longer: Seq<Forced>, shorter: Seq<Forced>) -> bool {
    &&& shorter.len() <= longer.len()
    &&& forall|i: int| 0 <= i < shorter.len() ==> longer[i] == shorter[i]
}

/// Whether one of `entries` from number `i` on is for the cell `pos`.
pub open spec fn pending_key(entries: Seq<Forced>, i: int, pos: (usize, usize)) -> bool {
    exists|j: int| i <= j < entries.len() && (#[trigger] entries[j]).0 == pos
}

/// What recording an entry does: the earlier entries stay in place, the
/// cell has an entry afterwards, and no cell gets a second one.
pub proof fn lemma_with_entry(entries: Seq<Forced>, pos: (usize, usize), value: u8)
    ensures
        has_key(with_entry(entries, pos, value), pos),
        forall|p: (usize, usize)|
            has_key(entries, p) ==> #[trigger] has_key(with_entry(entries, pos, value), p),
        forall|p: (usize, usize)|
            #[trigger] has_key(with_entry(entries, pos, value), p) ==> has_key(entries, p) || p
                == pos,
        distinct_keys(entries) ==> distinct_keys(with_entry(entries, pos, value)),
        entries.len() <= with_entry(entries, pos, value).len() <= entries.len() + 1,
        forall|i: int|
            0 <= i < entries.len() ==> #[trigger] with_entry(entries, pos, value)[i] == entries[i],
        !has_key(entries, pos) ==> with_entry(entries, pos, value) == entries.push((pos, value)),
        has_key(entries, pos) ==> with_entry(entries, pos, value) == entries,
{
    let next = with_entry(entries, pos, value);
    if !has_key(entries, pos) {
        assert(next[entries.len() as int].0 == pos);
        assert forall|p: (usize, usize)| has_key(entries, p) implies #[trigger] has_key(
            next,
            p,
        ) by {
            let i = choose|i: int| 0 <= i < entries.len() && (#[trigger] entries[i]).0 == p;
            assert(next[i].0 == p);
        }
        assert forall|p: (usize, usize)| #[trigger] has_key(next, p) implies has_key(entries, p)
            || p == pos by {
            let i = choose|i: int| 0 <= i < next.len() && (#[trigger] next[i]).0 == p;
            if i < entries.len() {
                assert(entries[i].0 == p);
            }
        }
        if distinct_keys(entries) {
            assert forall|i: int, j: int| 0 <= i < j < next.len() implies (#[trigger] next[i]).0 != (
            #[trigger] next[j]).0 by {
                if j == entries.len() {
                    assert(entries[i].0 != pos);
                } else {
                    assert(entries[i].0 != entries[j].0);
                }
            }
        }
    }
}

/// Forced assignments in the order of their discovery, at most one for a
/// cell.
pub struct SinglesMap {
    entries: Vec<Forced>,
}

impl View for SinglesMap {
    type V = Seq<Forced>;

    /// The entries in the order of their discovery.
    closed spec fn view(&self) -> Seq<Forced> {
        self.entries@
    }
}

impl SinglesMap {
    /// No cell has two entries.
    pub open spec fn wf(&self) -> bool {
        distinct_keys(self@)
    }

    /// A map without entries.
    pub fn new() -> (r: Self)
        ensures
            r@ == Seq::<Forced>::empty(),
            r.wf(),
    {
        Self { entries: Vec::new() }
    }

    /// The number of entries.
    pub fn len(&self) -> (r: usize)
        ensures
            r == self@.len(),
    {
        self.entries.len()
    }

    /// Whether there is no entry.
    pub fn is_empty(&self) -> (r: bool)
        ensures
            r == (self@.len() == 0),
    {
        self.entries.len() == 0
    }

    /// The entry that was discovered as number `i`.
    pub fn get(&self, i: usize) -> (r: Forced)
        requires
            i < self@.len(),
        ensures
            r == self@[i as int],
    {
        self.entries[i]
    }

    /// Whether the cell `pos` has an entry.
    pub fn contains_key(&self, pos: (usize, usize)) -> (r: bool)
        ensures
            r == has_key(self@, pos),
    {
        let mut i: usize = 0;
        while i < self.entries.len()
            invariant
                i <= self.entries@.len(),
                forall|k: int| 0 <= k < i ==> (#[trigger] self.entries@[k]).0 != pos,
            decreases self.entries@.len() - i,
        {
            let e = self.entries[i];
            if e.0.0 == pos.0 && e.0.1 == pos.1 {
                return true;
            }
            i = i + 1;
        }
        false
    }

    /// Records `value` for the cell `pos`, unless the cell has an entry
    /// already.
    pub fn insert(&mut self, pos: (usize, usize), value: u8)
        ensures
            final(self)@ == with_entry(old(self)@, pos, value),
            old(self).wf() ==> final(self).wf(),
    {
        proof {
            lemma_with_entry(self@, pos, value);
        }
        if !self.contains_key(pos) {
            self.entries.push((pos, value));
        }
    }
}

} // verus!
