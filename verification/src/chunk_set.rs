//! An insertion-ordered set of chunk coordinates with constant-time
//! membership: the chunks that one player has loaded.

use std::collections::HashSet;
use vstd::prelude::*;
use crate::chunk::{
    chunks_in_radius, lemma_key_injective, lemma_nearest_first_unique, nearest_first,
    sort_nearest_first, ChunkCoord,
};

verus! {

broadcast use vstd::std_specs::hash::group_hash_axioms;

/// The coordinates at most `reach` chunks from `anchor`.
pub open spec fn within_reach(anchor: ChunkCoord, reach: int) -> spec_fn(ChunkCoord) -> bool {
    |c: ChunkCoord| anchor.distance(c) <= reach
}

/// The coordinates more than `reach` chunks from `anchor`.
pub open spec fn out_of_reach(anchor: ChunkCoord, reach: int) -> spec_fn(ChunkCoord) -> bool {
    |c: ChunkCoord| anchor.distance(c) > reach
}

/// A set of chunk coordinates that remembers the order of insertion.
pub struct ChunkSet {
    order: Vec<ChunkCoord>,
    index: HashSet<u128>,
}

impl View for ChunkSet {
    type V = Seq<ChunkCoord>;

    /// The members, oldest first.
    closed spec fn view(&self) -> Seq<ChunkCoord> {
        self.order@
    }
}

impl ChunkSet {
    /// The members are distinct, and the membership index agrees with
    /// the list of members.
    pub closed spec fn wf(&self) -> bool {
        &&& self.order@.no_duplicates()
        &&& forall|i: int|
            0 <= i < self.order@.len() ==> self.index@.contains(#[trigger] self.order@[i].key())
        &&& forall|c: ChunkCoord| self.index@.contains(#[trigger] c.key()) ==> self.order@.contains(c)
    }

    /// A well-formed set holds no coordinate twice.
    pub proof fn lemma_distinct(&self)
        requires
            self.wf(),
        ensures
            self@.no_duplicates(),
    {
    }

    /// The empty set.
    pub fn new() -> (s: ChunkSet)
        ensures
            s.wf(),
            s@ == Seq::<ChunkCoord>::empty(),
    {
        let s = ChunkSet { order: Vec::new(), index: HashSet::new() };
        assert forall|c: ChunkCoord| s.index@.contains(#[trigger] c.key()) implies s.order@.contains(
            c,
        ) by {}
        s
    }

    /// Number of members.
    pub fn len(&self) -> (n: usize)
        ensures
            n == self@.len(),
    {
        self.order.len()
    }

    /// The member inserted `i`-th among those still present.
    pub fn get(&self, i: usize) -> (c: ChunkCoord)
        requires
            i < self@.len(),
        ensures
            c == self@[i as int],
    {
        self.order[i]
    }

    /// Whether `c` is a member.
    pub fn contains(&self, c: ChunkCoord) -> (r: bool)
        requires
            self.wf(),
        ensures
            r == self@.contains(c),
    {
        let k = c.pack();
        let r = self.index.contains(&k);
        proof {
            if self.order@.contains(c) {
                let i = choose|i: int| 0 <= i < self.order@.len() && self.order@[i] == c;
                assert(self.index@.contains(self.order@[i].key()));
            }
        }
        r
    }

    /// Adds `c` at the end unless it is a member already; says whether it
    /// was added.
    pub fn insert(&mut self, c: ChunkCoord) -> (added: bool)
        requires
            old(self).wf(),
        ensures
            final(self).wf(),
            added == !old(self)@.contains(c),
            final(self)@ == if added {
                old(self)@.push(c)
            } else {
                old(self)@
            },
    {
        if self.contains(c) {
            return false;
        }
        let k = c.pack();
        self.order.push(c);
        self.index.insert(k);
        proof {
            let before = old(self).order@;
            assert forall|i: int, j: int|
                0 <= i < self.order@.len() && 0 <= j < self.order@.len() && i != j implies self.order@[i]
                != self.order@[j] by {
                if i < before.len() {
                    assert(before[i] == self.order@[i]);
                    assert(before.contains(self.order@[i]));
                }
                if j < before.len() {
                    assert(before[j] == self.order@[j]);
                    assert(before.contains(self.order@[j]));
                }
            }
            assert forall|i: int| 0 <= i < self.order@.len() implies self.index@.contains(
                #[trigger] self.order@[i].key(),
            ) by {
                if i < before.len() {
                    assert(before[i] == self.order@[i]);
                }
            }
            assert forall|d: ChunkCoord| self.index@.contains(#[trigger] d.key()) implies self.order@.contains(
                d,
            ) by {
                if d.key() == c.key() {
                    lemma_key_injective(d, c);
                    assert(self.order@[before.len() as int] == d);
                } else {
                    assert(before.contains(d));
                    let i = choose|i: int| 0 <= i < before.len() && before[i] == d;
                    assert(self.order@[i] == d);
                }
            }
        }
        true
    }

    /// Keeps the members at most `reach` chunks from `anchor` and hands
    /// back the others; both keep their order.
    pub fn retain_within(&mut self, anchor: ChunkCoord, reach: i32) -> (dropped: Vec<ChunkCoord>)
        requires
            old(self).wf(),
        ensures
            final(self).wf(),
            final(self)@ == old(self)@.filter(within_reach(anchor, reach as int)),
            dropped@ == old(self)@.filter(out_of_reach(anchor, reach as int)),
    {
        let mut kept = ChunkSet::new();
        let mut dropped: Vec<ChunkCoord> = Vec::new();
        let ghost keep = within_reach(anchor, reach as int);
        let ghost lose = out_of_reach(anchor, reach as int);
        let mut i: usize = 0;
        proof {
            reveal(Seq::filter);
            assert(self.order@.take(0) =~= Seq::<ChunkCoord>::empty());
        }
        while i < self.order.len()
            invariant
                i <= self.order@.len(),
                self.order@ == old(self).order@,
                self.order@.no_duplicates(),
                keep == within_reach(anchor, reach as int),
                lose == out_of_reach(anchor, reach as int),
                kept.wf(),
                kept.order@ == self.order@.take(i as int).filter(keep),
                dropped@ == self.order@.take(i as int).filter(lose),
            decreases self.order@.len() - i,
        {
            let c = self.order[i];
            proof {
                let seen = self.order@.take(i as int);
                assert(self.order@.take(i as int + 1) =~= seen.push(c));
                seen.lemma_filter_push(c, keep);
                seen.lemma_filter_push(c, lose);
                if kept.order@.contains(c) {
                    seen.lemma_filter_contains_rev(keep, c);
                    let j = choose|j: int| 0 <= j < seen.len() && seen[j] == c;
                    assert(self.order@[j] == c);
                }
            }
            if anchor.chebyshev(c) <= reach as i64 {
                kept.insert(c);
            } else {
                dropped.push(c);
            }
            i += 1;
        }
        assert(self.order@.take(i as int) =~= self.order@);
        *self = kept;
        dropped
    }
}

/// Whether `s` is the order in which a player anchored at `anchor` is
/// sent chunks: every chunk within `radius` that is not in `loaded`, each
/// once, from the nearest to the farthest.
pub open spec fn is_load_order(
    s: Seq<ChunkCoord>,
    anchor: ChunkCoord,
    radius: int,
    loaded: Seq<ChunkCoord>,
) -> bool {
    &&& forall|c: ChunkCoord| s.contains(c) <==> (anchor.distance(c) <= radius && !loaded.contains(c))
    &&& nearest_first(s, anchor)
}

/// The order in which a player anchored at `anchor` is sent chunks: the
/// one sequence that [`is_load_order`] accepts.
pub open spec fn load_order(anchor: ChunkCoord, radius: int, loaded: Seq<ChunkCoord>) -> Seq<
    ChunkCoord,
> {
    choose|s: Seq<ChunkCoord>| is_load_order(s, anchor, radius, loaded)
}

/// There is at most one load order: a sequence that [`is_load_order`]
/// accepts is [`load_order`].
pub proof fn lemma_load_order_unique(
    s: Seq<ChunkCoord>,
    anchor: ChunkCoord,
    radius: int,
    loaded: Seq<ChunkCoord>,
)
    requires
        is_load_order(s, anchor, radius, loaded),
    ensures
        s == load_order(anchor, radius, loaded),
{
    lemma_nearest_first_unique(s, load_order(anchor, radius, loaded), anchor);
}

/// Whether `a` is `b` or comes before it in the nearest-first order
/// around `anchor`.
pub open spec fn nearer_or_same(anchor: ChunkCoord) -> spec_fn(ChunkCoord, ChunkCoord) -> bool {
    |a: ChunkCoord, b: ChunkCoord| a == b || a.nearer(b, anchor)
}

/// The coordinate with the key `k`.
pub open spec fn coord_of_key(k: int) -> ChunkCoord {
    ChunkCoord {
        x: (k / 0x1_0000_0000_0000_0000 - 0x8000_0000) as i32,
        y: ((k / 0x1_0000_0000) % 0x1_0000_0000 - 0x8000_0000) as i32,
        z: (k % 0x1_0000_0000 - 0x8000_0000) as i32,
    }
}

/// Every coordinate, in the order of the keys.
pub open spec fn every_coord() -> Seq<ChunkCoord> {
    Seq::new(0x1_0000_0000_0000_0000_0000_0000, |k: int| coord_of_key(k))
}

proof fn lemma_every_coord(c: ChunkCoord)
    ensures
        every_coord().contains(c),
{
    let k = c.key() as int;
    assert(0 <= k < 0x1_0000_0000_0000_0000_0000_0000);
    assert(every_coord()[k] == coord_of_key(k));
    assert(coord_of_key(k) == c);
}

proof fn lemma_to_seq_distinct(s: Set<ChunkCoord>)
    requires
        s.finite(),
    ensures
        s.to_seq().no_duplicates(),
        forall|c: ChunkCoord| s.to_seq().contains(c) <==> s.contains(c),
    decreases s.len(),
{
    broadcast use vstd::set::group_set_axioms;

    s.lemma_to_seq_to_set_id();
    assert forall|c: ChunkCoord| s.to_seq().contains(c) <==> s.contains(c) by {
        assert(s.to_seq().to_set().contains(c) <==> s.to_seq().contains(c));
    }
    if s.len() != 0 {
        let x = s.choose();
        let rest = s.remove(x).to_seq();
        lemma_to_seq_distinct(s.remove(x));
        let all = Seq::<ChunkCoord>::empty().push(x) + rest;
        assert(s.to_seq() == all);
        assert forall|i: int, j: int| 0 <= i < all.len() && 0 <= j < all.len() && i != j implies all[i]
            != all[j] by {
            if i > 0 {
                assert(all[i] == rest[i - 1]);
                assert(rest.contains(all[i]));
            }
            if j > 0 {
                assert(all[j] == rest[j - 1]);
                assert(rest.contains(all[j]));
            }
        }
    }
}

/// There is a load order for every anchor, radius and loaded set, so
/// [`load_order`] is one.
pub proof fn lemma_load_order_exists(anchor: ChunkCoord, radius: int, loaded: Seq<ChunkCoord>)
    ensures
        is_load_order(load_order(anchor, radius, loaded), anchor, radius, loaded),
{
    broadcast use vstd::seq_lib::to_multiset_contains;

    let wanted = Set::new(|c: ChunkCoord| anchor.distance(c) <= radius && !loaded.contains(c));
    assert(wanted.subset_of(every_coord().to_set())) by {
        assert forall|c: ChunkCoord| wanted.contains(c) implies every_coord().to_set().contains(
            c,
        ) by {
            lemma_every_coord(c);
        }
    }
    vstd::seq_lib::seq_to_set_is_finite(every_coord());
    vstd::set_lib::lemma_set_subset_finite(every_coord().to_set(), wanted);
    lemma_to_seq_distinct(wanted);
    let unsorted = wanted.to_seq();
    let leq = nearer_or_same(anchor);
    assert(vstd::relations::total_ordering(leq)) by {
        assert forall|a: ChunkCoord, b: ChunkCoord| #[trigger] leq(a, b) || #[trigger] leq(b, a) by {
            crate::chunk::lemma_nearer_total(a, b, anchor);
        }
    }
    unsorted.lemma_sort_by_ensures(leq);
    let sorted = unsorted.sort_by(leq);
    unsorted.lemma_multiset_has_no_duplicates();
    sorted.lemma_multiset_has_no_duplicates_conv();
    assert forall|c: ChunkCoord|
        sorted.contains(c) <==> (anchor.distance(c) <= radius && !loaded.contains(c)) by {
        assert(sorted.contains(c) <==> sorted.to_multiset().count(c) > 0);
        assert(unsorted.contains(c) <==> unsorted.to_multiset().count(c) > 0);
        assert(unsorted.to_multiset().count(c) == sorted.to_multiset().count(c));
        assert(unsorted.contains(c) <==> wanted.contains(c));
        assert(wanted.contains(c) <==> (anchor.distance(c) <= radius && !loaded.contains(c)));
    }
    assert forall|i: int, j: int| 0 <= i < j < sorted.len() implies (#[trigger] sorted[i]).nearer(
        #[trigger] sorted[j],
        anchor,
    ) by {
        assert(leq(sorted[i], sorted[j]));
        assert(sorted[i] != sorted[j]);
    }
    assert(is_load_order(sorted, anchor, radius, loaded));
}

/// The chunks to send to a player anchored at `anchor` who already has
/// `loaded`: every chunk within `radius`, except the loaded ones, from the
/// nearest to the farthest.
pub fn load_candidates(anchor: ChunkCoord, radius: i32, loaded: &ChunkSet) -> (chunks: Vec<
    ChunkCoord,
>)
    requires
        loaded.wf(),
    ensures
        is_load_order(chunks@, anchor, radius as int, loaded@),
        chunks@ == load_order(anchor, radius as int, loaded@),
{
    let cube = chunks_in_radius(anchor, radius);
    let mut chunks: Vec<ChunkCoord> = Vec::new();
    let mut i: usize = 0;
    while i < cube.len()
        invariant
            i <= cube@.len(),
            loaded.wf(),
            forall|a: int, b: int|
                0 <= a < b < cube@.len() ==> (#[trigger] cube@[a]).lex_lt(#[trigger] cube@[b]),
            forall|c: ChunkCoord|
                chunks@.contains(c) <==> (cube@.take(i as int).contains(c) && !loaded@.contains(c)),
            chunks@.no_duplicates(),
        decreases cube@.len() - i,
    {
        let c = cube[i];
        let ghost seen = cube@.take(i as int);
        let ghost before = chunks@;
        proof {
            assert(cube@.take(i as int + 1) =~= seen.push(c));
            if seen.contains(c) {
                let k = choose|k: int| 0 <= k < seen.len() && seen[k] == c;
                assert(cube@[k].lex_lt(cube@[i as int]));
            }
        }
        if !loaded.contains(c) {
            chunks.push(c);
            proof {
                assert forall|d: ChunkCoord|
                    chunks@.contains(d) <==> (seen.push(c).contains(d) && !loaded@.contains(d)) by {
                    if chunks@.contains(d) {
                        let k = choose|k: int| 0 <= k < chunks@.len() && chunks@[k] == d;
                        if k < before.len() {
                            assert(before[k] == d);
                            assert(before.contains(d));
                            let m = choose|m: int| 0 <= m < seen.len() && seen[m] == d;
                            assert(seen.push(c)[m] == d);
                        } else {
                            assert(seen.push(c)[seen.len() as int] == d);
                        }
                    }
                    if seen.push(c).contains(d) && !loaded@.contains(d) {
                        let m = choose|m: int| 0 <= m < seen.push(c).len() && seen.push(c)[m] == d;
                        if m < seen.len() {
                            assert(seen[m] == d);
                            assert(before.contains(d));
                            let k = choose|k: int| 0 <= k < before.len() && before[k] == d;
                            assert(chunks@[k] == d);
                        } else {
                            assert(chunks@[before.len() as int] == d);
                        }
                    }
                }
                assert forall|a: int, b: int|
                    0 <= a < chunks@.len() && 0 <= b < chunks@.len() && a != b implies chunks@[a]
                    != chunks@[b] by {
                    if a < before.len() {
                        assert(before[a] == chunks@[a]);
                        assert(before.contains(chunks@[a]));
                    }
                    if b < before.len() {
                        assert(before[b] == chunks@[b]);
                        assert(before.contains(chunks@[b]));
                    }
                }
            }
        } else {
            proof {
                assert forall|d: ChunkCoord|
                    chunks@.contains(d) <==> (seen.push(c).contains(d) && !loaded@.contains(d)) by {
                    if chunks@.contains(d) {
                        let m = choose|m: int| 0 <= m < seen.len() && seen[m] == d;
                        assert(seen.push(c)[m] == d);
                    }
                    if seen.push(c).contains(d) && !loaded@.contains(d) {
                        let m = choose|m: int| 0 <= m < seen.push(c).len() && seen.push(c)[m] == d;
                        assert(seen[m] == d);
                    }
                }
            }
        }
        i += 1;
    }
    let ghost unsorted = chunks@;
    sort_nearest_first(&mut chunks, anchor);
    proof {
        broadcast use vstd::seq_lib::to_multiset_contains;

        assert(cube@.take(i as int) =~= cube@);
        unsorted.lemma_multiset_has_no_duplicates();
        chunks@.lemma_multiset_has_no_duplicates_conv();
        assert forall|c: ChunkCoord|
            chunks@.contains(c) <==> (anchor.distance(c) <= radius && !loaded@.contains(c)) by {
            assert(chunks@.contains(c) <==> chunks@.to_multiset().count(c) > 0);
            assert(unsorted.contains(c) <==> unsorted.to_multiset().count(c) > 0);
        }
        assert forall|a: int, b: int| 0 <= a < b < chunks@.len() implies (#[trigger] chunks@[a]).nearer(
            #[trigger] chunks@[b],
            anchor,
        ) by {
            assert(!chunks@[b].nearer(chunks@[a], anchor));
            assert(chunks@[a] != chunks@[b]);
        }
        lemma_load_order_unique(chunks@, anchor, radius as int, loaded@);
    }
    chunks
}

} // verus!
