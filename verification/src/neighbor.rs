//! Candidates of a search, and the queue of the best of them.

use vstd::multiset::Multiset;
use vstd::prelude::*;
use vstd::seq_lib::{
    to_multiset_build, to_multiset_contains, to_multiset_insert, to_multiset_len,
    to_multiset_remove,
};

use crate::utils::VectorId;

verus! {

/// A candidate of a search: an id and its distance to the query.
///
/// The distance is an integer that orders candidates as their distances do. For distances that
/// are not negative, the bit pattern of the 32-bit floating point number is such an integer.
#[derive(Debug)]
pub struct Neighbor<I> {
    /// The id of the candidate.
    pub id: I,
    /// The distance of the candidate.
    pub distance: u32,
}

impl<I: Copy> Clone for Neighbor<I> {
    fn clone(&self) -> (neighbor: Self)
        ensures
            neighbor == *self,
    {
        *self
    }
}

impl<I: Copy> Copy for Neighbor<I> {

}

impl<I: VectorId> Neighbor<I> {
    /// A candidate with the given id and distance.
    pub fn new(id: I, distance: u32) -> (neighbor: Self)
        ensures
            neighbor == (Neighbor { id, distance }),
    {
        Neighbor { id, distance }
    }
}

/// The candidates in `neighbors` are ordered by distance, nearest first.
pub open spec fn nearest_first<I>(neighbors: Seq<Neighbor<I>>) -> bool {
    forall|i: int, j: int|
        0 <= i <= j < neighbors.len() ==> (#[trigger] neighbors[i]).distance <= (
        #[trigger] neighbors[j]).distance
}

/// The position behind the last candidate that is no farther than `distance`.
pub open spec fn position_for<I>(neighbors: Seq<Neighbor<I>>, distance: u32) -> nat
    decreases neighbors.len(),
{
    if neighbors.len() == 0 {
        0
    } else if neighbors.last().distance <= distance {
        neighbors.len()
    } else {
        position_for(neighbors.drop_last(), distance)
    }
}

/// `neighbors` with `neighbor` put in its place.
pub open spec fn with_neighbor<I>(neighbors: Seq<Neighbor<I>>, neighbor: Neighbor<I>) -> Seq<
    Neighbor<I>,
> {
    neighbors.insert(position_for(neighbors, neighbor.distance) as int, neighbor)
}

/// The first `limit` of `items`, or all of them where there are fewer.
pub open spec fn best_of<T>(items: Seq<T>, limit: usize) -> Seq<T> {
    if items.len() <= limit {
        items
    } else {
        items.take(limit as int)
    }
}

/// The position of the first mark that is not set, or that behind the last mark.
pub open spec fn first_unset(marks: Seq<bool>) -> nat
    decreases marks.len(),
{
    if marks.len() == 0 {
        0
    } else if first_unset(marks.drop_last()) < marks.len() - 1 || !marks.last() {
        first_unset(marks.drop_last())
    } else {
        marks.len()
    }
}

/// A priority queue of the best candidates seen during a search.
///
/// It has a fixed capacity and discards the worst members, or it is resizable, and then its
/// size is unbounded. It also determines the best unvisited candidate.
#[derive(Debug)]
pub struct NeighborPriorityQueue<I> {
    /// The candidates, nearest first.
    pub neighbors: Vec<Neighbor<I>>,
    /// For each candidate, whether it was visited.
    pub visited: Vec<bool>,
    /// The number of best candidates to track.
    pub search_l: usize,
    /// Whether the queue may hold more candidates than it tracks.
    pub resizable: bool,
}

/// Where a candidate belongs in a list that is ordered by distance.
proof fn lemma_position_for<I>(neighbors: Seq<Neighbor<I>>, distance: u32)
    requires
        nearest_first(neighbors),
    ensures
        position_for(neighbors, distance) <= neighbors.len(),
        forall|i: int|
            0 <= i < position_for(neighbors, distance) ==> (#[trigger] neighbors[i]).distance
                <= distance,
        forall|i: int|
            position_for(neighbors, distance) <= i < neighbors.len() ==> (
            #[trigger] neighbors[i]).distance > distance,
    decreases neighbors.len(),
{
    if neighbors.len() > 0 && neighbors.last().distance > distance {
        let init = neighbors.drop_last();
        lemma_position_for(init, distance);
        assert(forall|i: int| 0 <= i < init.len() ==> init[i] == neighbors[i]);
    }
}

/// Putting a candidate in its place keeps the order.
proof fn lemma_with_neighbor_ordered<I>(neighbors: Seq<Neighbor<I>>, neighbor: Neighbor<I>)
    requires
        nearest_first(neighbors),
    ensures
        nearest_first(with_neighbor(neighbors, neighbor)),
{
    lemma_position_for(neighbors, neighbor.distance);
    let position = position_for(neighbors, neighbor.distance) as int;
    let after = with_neighbor(neighbors, neighbor);
    assert(forall|i: int| 0 <= i < position ==> after[i] == neighbors[i]);
    assert(after[position] == neighbor);
    assert(forall|i: int| position < i < after.len() ==> after[i] == neighbors[i - 1]);
}

/// What the first unset mark is.
proof fn lemma_first_unset(marks: Seq<bool>)
    ensures
        first_unset(marks) <= marks.len(),
        forall|i: int| 0 <= i < first_unset(marks) ==> #[trigger] marks[i],
        first_unset(marks) < marks.len() ==> !marks[first_unset(marks) as int],
    decreases marks.len(),
{
    if marks.len() > 0 {
        let init = marks.drop_last();
        lemma_first_unset(init);
        assert(forall|i: int| 0 <= i < init.len() ==> init[i] == marks[i]);
    }
}

/// An unset mark in a prefix is the first one.
proof fn lemma_first_unset_prefix(marks: Seq<bool>, len: int)
    requires
        0 <= len <= marks.len(),
        first_unset(marks.take(len)) < len,
    ensures
        first_unset(marks) == first_unset(marks.take(len)),
    decreases marks.len(),
{
    if len == marks.len() {
        assert(marks.take(len) =~= marks);
    } else {
        assert(marks.drop_last().take(len) =~= marks.take(len));
        lemma_first_unset_prefix(marks.drop_last(), len);
    }
}

impl<I: VectorId> NeighborPriorityQueue<I> {
    /// The invariant of the queue.
    pub open spec fn wf(&self) -> bool {
        &&& nearest_first(self.neighbors@)
        &&& self.visited@.len() == self.neighbors@.len()
        &&& !self.resizable ==> self.neighbors@.len() <= self.search_l
    }

    /// An empty queue that tracks `search_l` candidates and holds no more than those.
    pub fn new(search_l: usize) -> (queue: Self)
        ensures
            queue.wf(),
            queue.neighbors@ == Seq::<Neighbor<I>>::empty(),
            queue.visited@ == Seq::<bool>::empty(),
            queue.search_l == search_l,
            !queue.resizable,
    {
        NeighborPriorityQueue {
            neighbors: Vec::new(),
            visited: Vec::new(),
            search_l,
            resizable: false,
        }
    }

    /// An empty queue that tracks `search_l` candidates and is unbounded in size.
    pub fn auto_resizable_with_search_param_l(search_l: usize) -> (queue: Self)
        ensures
            queue.wf(),
            queue.neighbors@ == Seq::<Neighbor<I>>::empty(),
            queue.visited@ == Seq::<bool>::empty(),
            queue.search_l == search_l,
            queue.resizable,
    {
        NeighborPriorityQueue {
            neighbors: Vec::new(),
            visited: Vec::new(),
            search_l,
            resizable: true,
        }
    }

    /// Put an unvisited candidate in its place, behind those that are no farther. A queue of fixed
    /// capacity then discards the worst candidate, if it holds one too many.
    pub fn insert(&mut self, neighbor: Neighbor<I>)
        requires
            old(self).wf(),
        ensures
            final(self).wf(),
            final(self).neighbors@ == if old(self).resizable {
                with_neighbor(old(self).neighbors@, neighbor)
            } else {
                best_of(with_neighbor(old(self).neighbors@, neighbor), old(self).search_l)
            },
            final(self).visited@ == {
                let marks = old(self).visited@.insert(
                    position_for(old(self).neighbors@, neighbor.distance) as int,
                    false,
                );
                if old(self).resizable {
                    marks
                } else {
                    best_of(marks, old(self).search_l)
                }
            },
            final(self).search_l == old(self).search_l,
            final(self).resizable == old(self).resizable,
            final(self).neighbors@.len() == if old(self).resizable || old(self).neighbors@.len()
                < old(self).search_l {
                old(self).neighbors@.len() + 1
            } else {
                old(self).neighbors@.len()
            },
            old(self).resizable || old(self).neighbors@.len() < old(self).search_l
                ==> final(self).neighbors@.to_multiset() == old(
                self,
            ).neighbors@.to_multiset().insert(neighbor),
            !old(self).resizable && old(self).neighbors@.len() == old(self).search_l
                ==> exists|worst: Neighbor<I>|
                {
                    &&& #[trigger] final(self).neighbors@.to_multiset().insert(worst) == old(
                        self,
                    ).neighbors@.to_multiset().insert(neighbor)
                    &&& forall|i: int|
                        0 <= i < final(self).neighbors@.len() ==> (
                        #[trigger] final(self).neighbors@[i]).distance <= worst.distance
                },
            exists|position: int|
                {
                    &&& 0 <= position <= old(self).neighbors@.len()
                    &&& forall|i: int|
                        0 <= i < position ==> (#[trigger] old(self).neighbors@[i]).distance
                            <= neighbor.distance
                    &&& forall|i: int|
                        position <= i < old(self).neighbors@.len() ==> (
                        #[trigger] old(self).neighbors@[i]).distance > neighbor.distance
                    &&& final(self).neighbors@ == (#[trigger] old(self).neighbors@.insert(
                        position,
                        neighbor,
                    )).take(final(self).neighbors@.len() as int)
                    &&& final(self).visited@ == old(self).visited@.insert(position, false).take(
                        final(self).neighbors@.len() as int,
                    )
                },
            forall|i: int, j: int|
                0 <= i <= j < final(self).neighbors@.len() ==> (
                #[trigger] final(self).neighbors@[i]).distance <= (
                #[trigger] final(self).neighbors@[j]).distance,
    {
        let mut position: usize = self.neighbors.len();
        assert(self.neighbors@.take(position as int) =~= self.neighbors@);
        while position > 0 && self.neighbors[position - 1].distance > neighbor.distance
            invariant
                position <= self.neighbors@.len(),
                *self == *old(self),
                position_for(self.neighbors@, neighbor.distance) == position_for(
                    self.neighbors@.take(position as int),
                    neighbor.distance,
                ),
            decreases position,
        {
            assert(self.neighbors@.take(position as int).drop_last() =~= self.neighbors@.take(
                position - 1,
            ));
            position = position - 1;
        }
        proof {
            lemma_with_neighbor_ordered(self.neighbors@, neighbor);
        }
        self.neighbors.insert(position, neighbor);
        self.visited.insert(position, false);
        if !self.resizable {
            self.neighbors.truncate(self.search_l);
            self.visited.truncate(self.search_l);
        }
        proof {
            let before = old(self).neighbors@;
            let after = before.insert(position as int, neighbor);
            let marks = old(self).visited@.insert(position as int, false);
            lemma_position_for(before, neighbor.distance);
            assert(after.take(after.len() as int) =~= after);
            assert(marks.take(marks.len() as int) =~= marks);
            if self.resizable || before.len() < self.search_l {
                law_insertion_adds_candidate(before, neighbor);
            } else {
                let worst = law_full_queue_drops_one(before, neighbor, self.search_l);
                assert(self.neighbors@ =~= after.take(self.search_l as int));
                assert(self.visited@ =~= marks.take(self.search_l as int));
                assert(self.neighbors@.to_multiset().insert(worst) == before.to_multiset().insert(
                    neighbor,
                ));
            }
        }
    }

    /// Change the number of candidates to track. A queue of fixed capacity discards what it
    /// then holds too many.
    pub fn reconfigure(&mut self, search_l: usize)
        requires
            old(self).wf(),
        ensures
            final(self).wf(),
            final(self).neighbors@ == if old(self).resizable {
                old(self).neighbors@
            } else {
                best_of(old(self).neighbors@, search_l)
            },
            final(self).visited@ == if old(self).resizable {
                old(self).visited@
            } else {
                best_of(old(self).visited@, search_l)
            },
            final(self).search_l == search_l,
            final(self).resizable == old(self).resizable,
            final(self).neighbors@.len() == if !old(self).resizable && search_l < old(
                self,
            ).neighbors@.len() {
                search_l as nat
            } else {
                old(self).neighbors@.len()
            },
            final(self).visited@.len() == final(self).neighbors@.len(),
            forall|i: int|
                0 <= i < final(self).neighbors@.len() ==> {
                    &&& #[trigger] final(self).neighbors@[i] == old(self).neighbors@[i]
                    &&& final(self).visited@[i] == old(self).visited@[i]
                },
    {
        self.search_l = search_l;
        if !self.resizable {
            self.neighbors.truncate(search_l);
            self.visited.truncate(search_l);
        }
    }

    /// Remove all candidates.
    pub fn clear(&mut self)
        ensures
            final(self).wf(),
            final(self).neighbors@ == Seq::<Neighbor<I>>::empty(),
            final(self).visited@ == Seq::<bool>::empty(),
            final(self).search_l == old(self).search_l,
            final(self).resizable == old(self).resizable,
    {
        self.neighbors.clear();
        self.visited.clear();
    }

    /// The position of the best unvisited candidate, or the size of the queue if there is none.
    fn first_unvisited(&self) -> (position: usize)
        requires
            self.wf(),
        ensures
            position == first_unset(self.visited@),
            position <= self.visited@.len(),
    {
        let mut position: usize = 0;
        while position < self.visited.len() && self.visited[position]
            invariant
                position <= self.visited@.len(),
                first_unset(self.visited@.take(position as int)) == position,
            decreases self.visited@.len() - position,
        {
            assert(self.visited@.take(position + 1).drop_last() =~= self.visited@.take(
                position as int,
            ));
            position = position + 1;
        }
        proof {
            if position < self.visited@.len() {
                assert(self.visited@.take(position + 1).drop_last() =~= self.visited@.take(
                    position as int,
                ));
                lemma_first_unset_prefix(self.visited@, position + 1);
            } else {
                assert(self.visited@.take(position as int) =~= self.visited@);
            }
        }
        position
    }

    /// Whether the queue holds an unvisited candidate.
    pub fn has_notvisited_node(&self) -> (found: bool)
        requires
            self.wf(),
        ensures
            found == (first_unset(self.visited@) < self.visited@.len()),
            found == exists|i: int| 0 <= i < self.visited@.len() && !self.visited@[i],
    {
        proof {
            lemma_first_unset(self.visited@);
        }
        self.first_unvisited() < self.visited.len()
    }

    /// The best unvisited candidate, which is visited thereby, if there is one.
    pub fn closest_notvisited(&mut self) -> (neighbor: Option<Neighbor<I>>)
        requires
            old(self).wf(),
        ensures
            final(self).wf(),
            ({
                let position = first_unset(old(self).visited@);
                if position < old(self).visited@.len() {
                    &&& neighbor == Some(old(self).neighbors@[position as int])
                    &&& final(self).visited@ == old(self).visited@.update(position as int, true)
                } else {
                    &&& neighbor is None
                    &&& final(self).visited@ == old(self).visited@
                }
            }),
            final(self).neighbors@ == old(self).neighbors@,
            final(self).search_l == old(self).search_l,
            final(self).resizable == old(self).resizable,
            neighbor is None <==> forall|i: int|
                0 <= i < old(self).visited@.len() ==> #[trigger] old(self).visited@[i],
            neighbor is None ==> final(self).visited@ == old(self).visited@,
            neighbor matches Some(closest) ==> exists|position: int|
                {
                    &&& 0 <= position < old(self).visited@.len()
                    &&& !old(self).visited@[position]
                    &&& forall|i: int| 0 <= i < position ==> #[trigger] old(self).visited@[i]
                    &&& closest == old(self).neighbors@[position]
                    &&& final(self).visited@ == #[trigger] old(self).visited@.update(position, true)
                },
            neighbor matches Some(closest) ==> forall|i: int|
                0 <= i < old(self).visited@.len() && !old(self).visited@[i] ==> closest.distance <= (
                #[trigger] old(self).neighbors@[i]).distance,
    {
        proof {
            lemma_first_unset(self.visited@);
        }
        let position: usize = self.first_unvisited();
        if position < self.neighbors.len() {
            self.visited[position] = true;
            Some(self.neighbors[position])
        } else {
            None
        }
    }

    /// The number of best candidates to track.
    pub fn search_l(&self) -> (search_l: usize)
        ensures
            search_l == self.search_l,
    {
        self.search_l
    }

    /// Whether the queue may hold more candidates than it tracks.
    pub fn is_resizable(&self) -> (resizable: bool)
        ensures
            resizable == self.resizable,
    {
        self.resizable
    }

    /// The number of candidates in the queue.
    pub fn size(&self) -> (size: usize)
        ensures
            size == self.neighbors@.len(),
    {
        self.neighbors.len()
    }
}

/// A queue of fixed capacity discards the worst: no candidate that an insertion drops is nearer
/// than one that stays.
pub proof fn law_fixed_queue_discards_worst<I>(
    neighbors: Seq<Neighbor<I>>,
    neighbor: Neighbor<I>,
    search_l: usize,
    kept: int,
    dropped: int,
)
    requires
        nearest_first(neighbors),
        0 <= kept < best_of(with_neighbor(neighbors, neighbor), search_l).len(),
        best_of(with_neighbor(neighbors, neighbor), search_l).len() <= dropped < with_neighbor(
            neighbors,
            neighbor,
        ).len(),
    ensures
        best_of(with_neighbor(neighbors, neighbor), search_l)[kept].distance <= with_neighbor(
            neighbors,
            neighbor,
        )[dropped].distance,
{
    lemma_with_neighbor_ordered(neighbors, neighbor);
}

/// `neighbors` with all of `added` put in their places, one after the other.
pub open spec fn with_all<I>(neighbors: Seq<Neighbor<I>>, added: Seq<Neighbor<I>>) -> Seq<
    Neighbor<I>,
>
    decreases added.len(),
{
    if added.len() == 0 {
        neighbors
    } else {
        with_neighbor(with_all(neighbors, added.drop_last()), added.last())
    }
}

/// What a queue of fixed capacity holds once all of `added` were inserted, one after the other.
pub open spec fn kept_of_all<I>(
    neighbors: Seq<Neighbor<I>>,
    added: Seq<Neighbor<I>>,
    search_l: usize,
) -> Seq<Neighbor<I>>
    decreases added.len(),
{
    if added.len() == 0 {
        neighbors
    } else {
        best_of(
            with_neighbor(kept_of_all(neighbors, added.drop_last(), search_l), added.last()),
            search_l,
        )
    }
}

/// What is beyond the capacity does not matter to what an insertion keeps.
proof fn lemma_best_of_best<I>(
    neighbors: Seq<Neighbor<I>>,
    neighbor: Neighbor<I>,
    search_l: usize,
)
    requires
        nearest_first(neighbors),
    ensures
        best_of(with_neighbor(best_of(neighbors, search_l), neighbor), search_l) == best_of(
            with_neighbor(neighbors, neighbor),
            search_l,
        ),
{
    let best = best_of(neighbors, search_l);
    lemma_position_for(neighbors, neighbor.distance);
    lemma_position_for(best, neighbor.distance);
    let position = position_for(neighbors, neighbor.distance) as int;
    let among_best = position_for(best, neighbor.distance) as int;
    if neighbors.len() > search_l {
        assert(forall|i: int| 0 <= i < best.len() ==> best[i] == neighbors[i]);
        if among_best < position && among_best < best.len() {
            assert(best[among_best].distance == neighbors[among_best].distance);
        }
        if position < among_best {
            assert(best[position].distance == neighbors[position].distance);
        }
        assert(best_of(with_neighbor(best, neighbor), search_l) =~= best_of(
            with_neighbor(neighbors, neighbor),
            search_l,
        ));
    }
}

/// A queue of fixed capacity holds the best candidates seen: however many are inserted, it holds
/// the first of those that an unbounded queue would hold.
pub proof fn law_fixed_queue_holds_best_seen<I>(
    neighbors: Seq<Neighbor<I>>,
    added: Seq<Neighbor<I>>,
    search_l: usize,
)
    requires
        nearest_first(neighbors),
        neighbors.len() <= search_l,
    ensures
        nearest_first(with_all(neighbors, added)),
        kept_of_all(neighbors, added, search_l) == best_of(with_all(neighbors, added), search_l),
    decreases added.len(),
{
    if added.len() > 0 {
        let all = with_all(neighbors, added.drop_last());
        law_fixed_queue_holds_best_seen(neighbors, added.drop_last(), search_l);
        lemma_with_neighbor_ordered(all, added.last());
        lemma_best_of_best(all, added.last(), search_l);
    }
}

/// The first items are kept as they are, up to the limit.
pub proof fn law_best_of_is_prefix<T>(items: Seq<T>, limit: usize, index: int)
    ensures
        best_of(items, limit).len() <= limit,
        best_of(items, limit).len() <= items.len(),
        best_of(items, limit).len() == limit || best_of(items, limit).len() == items.len(),
        0 <= index < best_of(items, limit).len() ==> best_of(items, limit)[index] == items[index],
{
}

/// An insertion adds the candidate, its id and its distance, and changes no other one.
pub proof fn law_insertion_adds_candidate<I>(neighbors: Seq<Neighbor<I>>, neighbor: Neighbor<I>)
    requires
        nearest_first(neighbors),
    ensures
        with_neighbor(neighbors, neighbor).to_multiset() == neighbors.to_multiset().insert(
            neighbor,
        ),
        with_neighbor(neighbors, neighbor).len() == neighbors.len() + 1,
{
    lemma_position_for(neighbors, neighbor.distance);
    to_multiset_insert(
        neighbors,
        position_for(neighbors, neighbor.distance) as int,
        neighbor,
    );
}

/// An insertion into a full queue of fixed capacity drops exactly one candidate, and none of
/// those that stay is farther.
pub proof fn law_full_queue_drops_one<I>(
    neighbors: Seq<Neighbor<I>>,
    neighbor: Neighbor<I>,
    search_l: usize,
) -> (worst: Neighbor<I>)
    requires
        nearest_first(neighbors),
        neighbors.len() == search_l,
    ensures
        best_of(with_neighbor(neighbors, neighbor), search_l).to_multiset().insert(worst)
            == neighbors.to_multiset().insert(neighbor),
        forall|i: int|
            0 <= i < search_l ==> (#[trigger] best_of(
                with_neighbor(neighbors, neighbor),
                search_l,
            )[i]).distance <= worst.distance,
{
    let after = with_neighbor(neighbors, neighbor);
    let kept = best_of(after, search_l);
    law_insertion_adds_candidate(neighbors, neighbor);
    lemma_with_neighbor_ordered(neighbors, neighbor);
    let worst = after.last();
    assert(kept =~= after.remove(after.len() - 1));
    to_multiset_remove(after, after.len() - 1);
    assert(after.to_multiset().count(worst) > 0) by {
        to_multiset_contains(after, worst);
        assert(after.contains(after[after.len() - 1]));
    }
    assert(kept.to_multiset().insert(worst) =~= neighbors.to_multiset().insert(neighbor));
    worst
}

/// What is inserted later leaves the order of what is there: the candidates before the place of
/// the new one are no farther than it, those behind are farther, and each keeps its neighbors.
pub proof fn law_insertion_keeps_order<I>(
    neighbors: Seq<Neighbor<I>>,
    neighbor: Neighbor<I>,
) -> (position: int)
    requires
        nearest_first(neighbors),
    ensures
        0 <= position <= neighbors.len(),
        with_neighbor(neighbors, neighbor)[position] == neighbor,
        forall|i: int|
            0 <= i < position ==> {
                &&& (#[trigger] neighbors[i]).distance <= neighbor.distance
                &&& with_neighbor(neighbors, neighbor)[i] == neighbors[i]
            },
        forall|i: int|
            position <= i < neighbors.len() ==> {
                &&& (#[trigger] neighbors[i]).distance > neighbor.distance
                &&& with_neighbor(neighbors, neighbor)[i + 1] == neighbors[i]
            },
{
    lemma_position_for(neighbors, neighbor.distance);
    position_for(neighbors, neighbor.distance) as int
}

/// Putting candidates in their places adds all of them, in whatever order they come, and none
/// besides.
pub proof fn law_nothing_is_lost<I>(neighbors: Seq<Neighbor<I>>, added: Seq<Neighbor<I>>)
    requires
        nearest_first(neighbors),
    ensures
        with_all(neighbors, added).to_multiset() == neighbors.to_multiset().add(
            added.to_multiset(),
        ),
        nearest_first(with_all(neighbors, added)),
    decreases added.len(),
{
    to_multiset_len(added);
    if added.len() > 0 {
        let init = added.drop_last();
        law_nothing_is_lost(neighbors, init);
        law_insertion_adds_candidate(with_all(neighbors, init), added.last());
        lemma_with_neighbor_ordered(with_all(neighbors, init), added.last());
        assert(added =~= init.push(added.last()));
        to_multiset_build(init, added.last());
        assert(with_all(neighbors, added).to_multiset() =~= neighbors.to_multiset().add(
            added.to_multiset(),
        ));
    } else {
        assert(added.to_multiset() =~= Multiset::<Neighbor<I>>::empty());
        assert(neighbors.to_multiset() =~= neighbors.to_multiset().add(added.to_multiset()));
    }
}

/// The first unvisited candidate is the best one: no other unvisited candidate is nearer.
pub proof fn law_first_unvisited_is_best<I>(
    neighbors: Seq<Neighbor<I>>,
    visited: Seq<bool>,
    other: int,
)
    requires
        nearest_first(neighbors),
        visited.len() == neighbors.len(),
        0 <= other < visited.len(),
        !visited[other],
    ensures
        first_unset(visited) < visited.len(),
        !visited[first_unset(visited) as int],
        first_unset(visited) <= other,
        neighbors[first_unset(visited) as int].distance <= neighbors[other].distance,
{
    lemma_first_unset(visited);
}

} // verus!
