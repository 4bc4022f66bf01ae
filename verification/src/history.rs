//! The clipboard history store: an ordered sequence of text snapshots,
//! most-recent-first, bounded at `CAPACITY` entries, deduplicated only
//! against the front entry.

use vstd::prelude::*;

verus! {

/// Largest number of entries the store retains.
pub const CAPACITY: usize = 10;

/// Failure of a restore request.
#[derive(Debug, Clone, Copy, PartialEq, Eq, Structural)]
pub enum StoreError {
    /// The requested index does not denote a retained entry.
    OutOfRange,
}

/// `s` limited to its first `CAPACITY` entries.
pub open spec fn clip(s: Seq<Seq<char>>) -> Seq<Seq<char>> {
    if s.len() <= CAPACITY { s } else { s.take(CAPACITY as int) }
}

/// A candidate is rejected exactly when it equals the current front entry.
pub open spec fn observe_rejects(s: Seq<Seq<char>>, x: Seq<char>) -> bool {
    s.len() > 0 && s[0] == x
}

/// The store contents after one `observe` of `x` on contents `s`:
/// unchanged if `x` equals the front entry, otherwise `x` in front,
/// with the oldest entry evicted when the bound would be exceeded.
pub open spec fn observe_spec(s: Seq<Seq<char>>, x: Seq<char>) -> Seq<Seq<char>> {
    if observe_rejects(s, x) {
        s
    } else {
        clip(seq![x] + s)
    }
}

/// The bounded, front-deduplicated, most-recent-first history of clipboard
/// text snapshots. Its abstract value is the sequence of entries, each a
/// sequence of characters, index 0 being the most recently observed.
pub struct HistoryStore {
    entries: Vec<String>,
}

impl View for HistoryStore {
    type V = Seq<Seq<char>>;

    closed spec fn view(&self) -> Seq<Seq<char>> {
        self.entries.deep_view()
    }
}

impl HistoryStore {
    /// Every store ever constructed holds at most `CAPACITY` entries.
    #[verifier::type_invariant]
    spec fn bounded(&self) -> bool {
        self@.len() <= CAPACITY
    }

    /// An empty history.
    pub fn new() -> (s: Self)
        ensures
            s@ == Seq::<Seq<char>>::empty(),
    {
        let s = HistoryStore { entries: Vec::new() };
        proof {
            assert(s@ =~= Seq::<Seq<char>>::empty());
        }
        s
    }

    /// A history rebuilt from previously persisted entries, most-recent-first;
    /// anything beyond the capacity bound is discarded.
    pub fn from_entries(entries: Vec<String>) -> (s: Self)
        ensures
            s@ == clip(entries.deep_view()),
    {
        let mut entries = entries;
        let ghost pre: Seq<Seq<char>> = entries.deep_view();
        if entries.len() > CAPACITY {
            entries.truncate(CAPACITY);
            proof {
                assert(entries.deep_view() =~= clip(pre));
            }
        }
        HistoryStore { entries }
    }

    /// The number of retained entries; never above the capacity bound.
    pub fn len(&self) -> (n: usize)
        ensures
            n == self@.len(),
            n <= CAPACITY,
    {
        proof {
            use_type_invariant(self);
        }
        self.entries.len()
    }

    /// Accepts a newly read clipboard value. A value equal to the current
    /// front entry is suppressed; any other value is inserted in front and,
    /// when the bound would be exceeded, the oldest entry is evicted.
    pub fn observe(&mut self, candidate: String) -> (changed: bool)
        ensures
            changed == !observe_rejects(old(self)@, candidate@),
            final(self)@ == observe_spec(old(self)@, candidate@),
            final(self)@.len() <= CAPACITY,
    {
        proof {
            use_type_invariant(&*self);
        }
        if self.entries.len() > 0 && self.entries[0] == candidate {
            proof {
                assert(old(self)@[0] == candidate@);
            }
            return false;
        }
        let ghost pre: Seq<Seq<char>> = self@;
        let mut entries: Vec<String> = Vec::new();
        std::mem::swap(&mut entries, &mut self.entries);
        entries.insert(0, candidate);
        if entries.len() > CAPACITY {
            entries.pop();
        }
        proof {
            assert(entries.deep_view() =~= observe_spec(pre, candidate@));
        }
        std::mem::swap(&mut entries, &mut self.entries);
        true
    }

    /// A copy of the current entries, most-recent-first, for read-only
    /// consumption; the store itself is not handed out.
    pub fn snapshot(&self) -> (r: Vec<String>)
        ensures
            r.deep_view() == self@,
            r.deep_view().len() <= CAPACITY,
    {
        proof {
            use_type_invariant(self);
        }
        let mut r: Vec<String> = Vec::new();
        let mut idx: usize = 0;
        while idx < self.entries.len()
            invariant
                idx <= self.entries.len(),
                r@.len() == idx,
                forall|j: int| 0 <= j < idx ==> r@[j]@ == self@[j],
            decreases self.entries.len() - idx,
        {
            let e = self.entries[idx].clone();
            proof {
                assert(e@ == self@[idx as int]);
            }
            r.push(e);
            idx += 1;
        }
        proof {
            assert forall|j: int| 0 <= j < self@.len() implies r.deep_view()[j] == self@[j] by {
                assert(r@[j]@ == self@[j]);
            }
            assert(r.deep_view() =~= self@);
        }
        r
    }

    /// The entry at `index`, for hand-off to the clipboard-write capability;
    /// `OutOfRange` exactly when `index` does not denote a retained entry.
    pub fn restore_request(&self, index: usize) -> (r: Result<String, StoreError>)
        ensures
            index < self@.len() ==> (r matches Ok(t) && t@ == self@[index as int]),
            index >= self@.len() ==> (r matches Err(e) && e == StoreError::OutOfRange),
    {
        if index < self.entries.len() {
            let t = self.entries[index].clone();
            proof {
                assert(t@ == self@[index as int]);
            }
            Ok(t)
        } else {
            Err(StoreError::OutOfRange)
        }
    }
}

/// The store contents after a whole run of `observe` calls, the first
/// element of `vs` observed first.
pub open spec fn observe_all(s: Seq<Seq<char>>, vs: Seq<Seq<char>>) -> Seq<Seq<char>>
    decreases vs.len(),
{
    if vs.len() == 0 {
        s
    } else {
        observe_all(observe_spec(s, vs[0]), vs.skip(1))
    }
}

/// Bounded size: an `observe` on contents within the bound leaves contents
/// within the bound, whatever is observed; so the bound holds after every
/// call of a run.
pub proof fn lemma_bounded_size(s: Seq<Seq<char>>, x: Seq<char>)
    requires
        s.len() <= CAPACITY,
    ensures
        observe_spec(s, x).len() <= CAPACITY,
{
}

/// Front-dedup idempotence: observing `x` right after observing `x` is
/// rejected and leaves the contents of the first observation unchanged.
pub proof fn lemma_observe_idempotent(s: Seq<Seq<char>>, x: Seq<char>)
    ensures
        observe_rejects(observe_spec(s, x), x),
        observe_spec(observe_spec(s, x), x) == observe_spec(s, x),
{
    if !observe_rejects(s, x) {
        assert((seq![x] + s)[0] == x);
        assert(observe_spec(s, x)[0] == x);
    }
}

/// `clip` of what was already clipped on the right collapses to one `clip`.
proof fn lemma_clip_absorb(a: Seq<Seq<char>>, b: Seq<Seq<char>>)
    ensures
        clip(a + clip(b)) == clip(a + b),
{
    if b.len() > CAPACITY {
        assert(clip(a + b.take(CAPACITY as int)) =~= clip(a + b));
    }
}

/// A run of observations each differing from the front entry it meets
/// stacks them newest-first on the old contents, clipped to the bound.
proof fn lemma_observe_all_fresh(s: Seq<Seq<char>>, vs: Seq<Seq<char>>)
    requires
        s.len() <= CAPACITY,
        forall|i: int| 0 < i < vs.len() ==> #[trigger] vs[i] != vs[i - 1],
        vs.len() > 0 ==> (s.len() == 0 || s[0] != vs[0]),
    ensures
        observe_all(s, vs) == clip(vs.reverse() + s),
    decreases vs.len(),
{
    if vs.len() == 0 {
        assert(vs.reverse() + s =~= s);
    } else {
        let x = vs[0];
        let s1 = observe_spec(s, x);
        assert(!observe_rejects(s, x));
        assert((seq![x] + s)[0] == x);
        assert(s1.len() > 0 && s1[0] == x);
        assert(s1.len() <= CAPACITY);
        let vs1 = vs.skip(1);
        assert(forall|i: int| 0 < i < vs1.len() ==> #[trigger] vs1[i] != vs1[i - 1]) by {
            assert(forall|i: int| 0 <= i < vs1.len() ==> #[trigger] vs1[i] == vs[i + 1]);
        }
        assert(vs1.len() > 0 ==> s1[0] != vs1[0]);
        lemma_observe_all_fresh(s1, vs1);
        assert(observe_all(s, vs) == observe_all(s1, vs1));
        lemma_clip_absorb(vs1.reverse(), seq![x] + s);
        assert(vs1.reverse() + (seq![x] + s) =~= vs.reverse() + s);
    }
}

/// FIFO eviction: observing eleven pairwise distinct values on an empty
/// store retains the latest ten, newest first; the first observed value
/// is the one evicted.
pub proof fn lemma_fifo_eviction(vs: Seq<Seq<char>>)
    requires
        vs.len() == CAPACITY + 1,
        forall|i: int, j: int| 0 <= i < j < vs.len() ==> vs[i] != vs[j],
    ensures
        observe_all(Seq::empty(), vs) == vs.reverse().take(CAPACITY as int),
{
    lemma_observe_all_fresh(Seq::empty(), vs);
    assert(vs.reverse() + Seq::<Seq<char>>::empty() =~= vs.reverse());
}

/// Non-adjacent duplicates are preserved: observing `a`, then `b`, then
/// `a` again retains all three snapshots; only adjacent repetition is
/// deduplicated.
pub proof fn lemma_non_adjacent_duplicates(a: Seq<char>, b: Seq<char>)
    requires
        a != b,
    ensures
        observe_all(Seq::empty(), seq![a, b, a]) == seq![a, b, a],
{
    let vs = seq![a, b, a];
    let e = Seq::<Seq<char>>::empty();
    assert(vs.skip(1) =~= seq![b, a]);
    assert(seq![b, a].skip(1) =~= seq![a]);
    assert(seq![a].skip(1) =~= Seq::<Seq<char>>::empty());
    let s1 = observe_spec(e, a);
    assert(seq![a] + e =~= seq![a]);
    assert(s1 == seq![a]);
    let s2 = observe_spec(s1, b);
    assert(seq![b] + seq![a] =~= seq![b, a]);
    assert(s2 == seq![b, a]);
    let s3 = observe_spec(s2, a);
    assert(seq![a] + seq![b, a] =~= seq![a, b, a]);
    assert(s3 == seq![a, b, a]);
    assert(observe_all(e, vs) == observe_all(s1, seq![b, a]));
    assert(observe_all(s1, seq![b, a]) == observe_all(s2, seq![a]));
    assert(observe_all(s2, seq![a]) == observe_all(s3, Seq::<Seq<char>>::empty()));
}

} // verus!
