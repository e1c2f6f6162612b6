//! Scratch space for in-memory index based search.

use std::collections::VecDeque;

use vstd::prelude::*;

use crate::estimate::{
    estimate_node_visited_set_size, estimated_size, law_estimate_in_dense_array,
};
use crate::neighbor::{best_of, Neighbor, NeighborPriorityQueue};
use crate::utils::VectorId;
use crate::visited::{StampedVisitedSet, MAX_DENSE_SLOTS};

verus! {

/// The priority queue in [`SearchScratch`] operates in two modes:
///
/// * Fixed: The queue has a fixed capacity and discards the worst members. This is used by
///   the standard nearest-neighbor search methods.
///
/// * Resizable: Allows the priority queue to be unbounded in size. This is used by paged
///   search to allow multiple rounds of searching.
#[derive(Debug, Clone, Copy)]
pub enum PriorityQueueConfiguration {
    /// Configure the priority queue in fixed-L mode with the provided `search_l`.
    Fixed(usize),
    /// Configure the priority queue in resizeable mode with the provided `search_l`.
    Resizable(usize),
}

/// What a scratch space is made for.
#[derive(Debug, Clone, Copy)]
pub struct SearchScratchParams {
    /// The number of best candidates of a search.
    pub l_value: usize,
    /// The maximum degree of the graph.
    pub max_degree: usize,
    /// The number of start points, which are candidates besides.
    pub num_frozen_pts: usize,
}

/// Scratch space used during graph search.
#[derive(Debug)]
pub struct SearchScratch<I: VectorId, Q = NeighborPriorityQueue<I>> {
    /// A priority queue of the best candidates seen during search. It is also responsible for
    /// determining the best unvisited candidate.
    ///
    /// When used in a paged search context, this queue is unbounded.
    pub best: Q,
    /// A record of all ids visited during a search.
    ///
    /// This is used to prevent multiple requests to the same id from the vector providers.
    pub visited: StampedVisitedSet<I>,
    /// A buffer for adjacency lists.
    pub id_scratch: Vec<I>,
    /// A list of beam search nodes, to temporarily hold the beam of nodes in each hop.
    pub beam_nodes: Vec<I>,
    /// A queue of nodes to visit during range search. Need not be ordered by distance.
    pub range_frontier: VecDeque<I>,
    /// A list of nodes that are in range of the query. Only used during range search.
    pub in_range: Vec<Neighbor<I>>,
    /// A tracker for how many hops we have taken during the current search.
    pub hops: u32,
    /// A tracker for how many comparisons we have made during the current search.
    pub cmps: u32,
}

/// What a scratch space holds.
#[verifier::ext_equal]
#[verifier::reject_recursive_types(I)]
pub struct ScratchContents<I> {
    pub best: Seq<Neighbor<I>>,
    pub best_visited: Seq<bool>,
    pub search_l: usize,
    pub resizable: bool,
    pub visited: Set<I>,
    pub id_scratch: Seq<I>,
    pub beam_nodes: Seq<I>,
    pub range_frontier: Seq<I>,
    pub in_range: Seq<Neighbor<I>>,
    pub hops: u32,
    pub cmps: u32,
}

/// The contents of a scratch space that no search has used yet.
pub open spec fn unused<I>(nbest: PriorityQueueConfiguration) -> ScratchContents<I> {
    ScratchContents {
        best: Seq::empty(),
        best_visited: Seq::empty(),
        search_l: match nbest {
            PriorityQueueConfiguration::Fixed(search_l) => search_l,
            PriorityQueueConfiguration::Resizable(search_l) => search_l,
        },
        resizable: nbest is Resizable,
        visited: Set::empty(),
        id_scratch: Seq::empty(),
        beam_nodes: Seq::empty(),
        range_frontier: Seq::empty(),
        in_range: Seq::empty(),
        hops: 0,
        cmps: 0,
    }
}

/// The number of slots that a visited set is presized to.
pub open spec fn presized_slots(size_hint: Option<usize>) -> usize {
    match size_hint {
        Some(size) => if size < MAX_DENSE_SLOTS {
            size
        } else {
            MAX_DENSE_SLOTS
        },
        None => 0,
    }
}

/// The contents of a scratch space that a pool hands out, be it a new one or one that an
/// earlier search has used.
pub open spec fn pooled<I>(param: SearchScratchParams) -> ScratchContents<I> {
    unused(PriorityQueueConfiguration::Fixed((param.l_value + param.num_frozen_pts) as usize))
}

impl<I: VectorId> View for SearchScratch<I, NeighborPriorityQueue<I>> {
    type V = ScratchContents<I>;

    open spec fn view(&self) -> ScratchContents<I> {
        ScratchContents {
            best: self.best.neighbors@,
            best_visited: self.best.visited@,
            search_l: self.best.search_l,
            resizable: self.best.resizable,
            visited: self.visited@,
            id_scratch: self.id_scratch@,
            beam_nodes: self.beam_nodes@,
            range_frontier: self.range_frontier@,
            in_range: self.in_range@,
            hops: self.hops,
            cmps: self.cmps,
        }
    }
}

impl<I: VectorId> SearchScratch<I, NeighborPriorityQueue<I>> {
    /// The invariant of the scratch space.
    pub open spec fn wf(&self) -> bool {
        &&& self.best.wf()
        &&& self.visited.wf()
    }

    /// Create a new scratch space.
    ///
    /// * `nbest`: The number of best candidates to track.
    /// * `size_hint`: If provided, hints at the capacity for preallocating the `visited` set.
    pub fn new(nbest: PriorityQueueConfiguration, size_hint: Option<usize>) -> (scratch: Self)
        ensures
            scratch.wf(),
            scratch@ == unused::<I>(nbest),
            scratch.visited.stamps@.len() == presized_slots(size_hint),
            scratch.visited.epoch == 1,
            match nbest {
                PriorityQueueConfiguration::Fixed(capacity) => !scratch.best.resizable
                    && scratch.best.search_l == capacity,
                PriorityQueueConfiguration::Resizable(capacity) => scratch.best.resizable
                    && scratch.best.search_l == capacity,
            },
            scratch.best.neighbors@.len() == 0,
            scratch.best.visited@.len() == 0,
            scratch.visited@ == Set::<I>::empty(),
            scratch.visited.len == 0,
            scratch.id_scratch@.len() == 0,
            scratch.beam_nodes@.len() == 0,
            scratch.range_frontier@.len() == 0,
            scratch.in_range@.len() == 0,
            scratch.hops == 0,
            scratch.cmps == 0,
            size_hint is None ==> scratch.visited.stamps@.len() == 0,
            size_hint matches Some(size) ==> scratch.visited.stamps@.len() == size
                || scratch.visited.stamps@.len() == 0x4000_0000 < size,
    {
        let visited = match size_hint {
            Some(size_hint) => StampedVisitedSet::with_capacity(size_hint),
            None => StampedVisitedSet::new(),
        };
        let best = match nbest {
            PriorityQueueConfiguration::Fixed(capacity) => NeighborPriorityQueue::new(capacity),
            PriorityQueueConfiguration::Resizable(capacity) => {
                NeighborPriorityQueue::auto_resizable_with_search_param_l(capacity)
            },
        };
        SearchScratch {
            best,
            visited,
            id_scratch: Vec::new(),
            beam_nodes: Vec::new(),
            range_frontier: VecDeque::new(),
            in_range: Vec::new(),
            hops: 0,
            cmps: 0,
        }
    }

    /// Reconfigures the queue length for a longer or shorter search.
    ///
    /// * `nbest`: The new number of candidates to track.
    pub fn resize(&mut self, nbest: usize)
        requires
            old(self).wf(),
        ensures
            final(self).wf(),
            final(self)@ == (ScratchContents {
                best: if old(self).best.resizable {
                    old(self)@.best
                } else {
                    best_of(old(self)@.best, nbest)
                },
                best_visited: if old(self).best.resizable {
                    old(self)@.best_visited
                } else {
                    best_of(old(self)@.best_visited, nbest)
                },
                search_l: nbest,
                ..old(self)@
            }),
            final(self).visited == old(self).visited,
            final(self).best.search_l == nbest,
            final(self).best.resizable == old(self).best.resizable,
            !old(self).best.resizable && nbest < old(self).best.neighbors@.len()
                ==> final(self).best.neighbors@.len() == nbest,
            old(self).best.resizable || nbest >= old(self).best.neighbors@.len()
                ==> final(self).best.neighbors@.len() == old(self).best.neighbors@.len(),
            forall|i: int|
                0 <= i < final(self).best.neighbors@.len() ==> {
                    &&& #[trigger] final(self).best.neighbors@[i] == old(self).best.neighbors@[i]
                    &&& final(self).best.visited@[i] == old(self).best.visited@[i]
                },
            final(self).id_scratch == old(self).id_scratch,
            final(self).beam_nodes == old(self).beam_nodes,
            final(self).range_frontier == old(self).range_frontier,
            final(self).in_range == old(self).in_range,
            final(self).hops == old(self).hops,
            final(self).cmps == old(self).cmps,
    {
        self.best.reconfigure(nbest);
    }

    /// Clear internal data structures.
    ///
    /// This allows `self` to be used for another search.
    pub fn clear(&mut self)
        requires
            old(self).visited.stamps_wf(),
        ensures
            final(self).wf(),
            final(self)@ == unused::<I>(
                if old(self).best.resizable {
                    PriorityQueueConfiguration::Resizable(old(self).best.search_l)
                } else {
                    PriorityQueueConfiguration::Fixed(old(self).best.search_l)
                },
            ),
            final(self).visited.in_next_epoch(old(self).visited),
            final(self).best.search_l == old(self).best.search_l,
            final(self).best.resizable == old(self).best.resizable,
            final(self).best.neighbors@.len() == 0,
            final(self).best.visited@.len() == 0,
            final(self).visited@ == Set::<I>::empty(),
            final(self).visited.len == 0,
            final(self).id_scratch@.len() == 0,
            final(self).beam_nodes@.len() == 0,
            final(self).range_frontier@.len() == 0,
            final(self).in_range@.len() == 0,
            final(self).hops == 0,
            final(self).cmps == 0,
    {
        self.best.clear();
        self.visited.clear();
        self.id_scratch.clear();
        self.beam_nodes.clear();
        self.in_range.clear();
        self.range_frontier.clear();

        self.hops = 0;
        self.cmps = 0;
    }

    /// Return the currently configured `search_l`: the number of best candidates to track.
    pub fn search_l(&self) -> (search_l: usize)
        ensures
            search_l == self@.search_l,
            search_l == self.best.search_l,
    {
        self.best.search_l()
    }

    /// Create a scratch space for a pool: of fixed capacity, with the visited set presized for
    /// as many nodes as a search is expected to visit.
    pub fn create(param: &SearchScratchParams) -> (scratch: Self)
        requires
            param.l_value + param.num_frozen_pts <= usize::MAX,
        ensures
            scratch.wf(),
            scratch@ == pooled::<I>(*param),
            scratch.visited.stamps@.len() == presized_slots(
                Some(estimated_size(param.max_degree, param.l_value)),
            ),
            scratch.visited.epoch == 1,
            !scratch.best.resizable,
            scratch.best.search_l == param.l_value + param.num_frozen_pts,
            scratch.best.neighbors@.len() == 0,
            scratch.best.visited@.len() == 0,
            scratch.visited@ == Set::<I>::empty(),
            scratch.visited.len == 0,
            scratch.id_scratch@.len() == 0,
            scratch.beam_nodes@.len() == 0,
            scratch.range_frontier@.len() == 0,
            scratch.in_range@.len() == 0,
            scratch.hops == 0,
            scratch.cmps == 0,
            143 * param.max_degree * param.l_value <= 100 * 0x3FFF_FFFF ==> 143 * param.max_degree
                * param.l_value <= 100 * scratch.visited.stamps@.len() <= 143 * param.max_degree
                * param.l_value + 100,
            143 * param.max_degree * param.l_value >= 100 * 0x4000_0001
                ==> scratch.visited.stamps@.len() == 0x4000_0000,
    {
        proof {
            law_estimate_in_dense_array(param.max_degree, param.l_value);
        }
        SearchScratch::new(
            PriorityQueueConfiguration::Fixed(param.l_value + param.num_frozen_pts),
            Some(estimate_node_visited_set_size(param.max_degree, param.l_value)),
        )
    }

    /// Make a scratch space from a pool ready for another search. Scratch from a pool is used
    /// only in fixed configuration: if it is resizable, it is converted to fixed.
    pub fn modify(&mut self, param: &SearchScratchParams)
        requires
            old(self).visited.stamps_wf(),
            param.l_value + param.num_frozen_pts <= usize::MAX,
        ensures
            final(self).wf(),
            final(self)@ == pooled::<I>(*param),
            final(self).visited.in_next_epoch(old(self).visited),
            !final(self).best.resizable,
            final(self).best.search_l == param.l_value + param.num_frozen_pts,
            final(self).best.neighbors@.len() == 0,
            final(self).best.visited@.len() == 0,
            final(self).visited@ == Set::<I>::empty(),
            final(self).visited.len == 0,
            final(self).id_scratch@.len() == 0,
            final(self).beam_nodes@.len() == 0,
            final(self).range_frontier@.len() == 0,
            final(self).in_range@.len() == 0,
            final(self).hops == 0,
            final(self).cmps == 0,
    {
        self.clear();
        if self.best.is_resizable() {
            self.best = NeighborPriorityQueue::new(param.l_value + param.num_frozen_pts);
        } else {
            self.best.reconfigure(param.l_value + param.num_frozen_pts);
        }
    }
}

/// A scratch space from a pool is of fixed capacity, with room for the best candidates of a search
/// and for its start points besides, and holds nothing.
pub proof fn law_pooled_scratch<I>(param: SearchScratchParams)
    requires
        param.l_value + param.num_frozen_pts <= usize::MAX,
    ensures
        pooled::<I>(param).search_l - param.num_frozen_pts == param.l_value,
        !pooled::<I>(param).resizable,
        pooled::<I>(param).best.len() == 0,
        pooled::<I>(param).best_visited.len() == 0,
        pooled::<I>(param).visited == Set::<I>::empty(),
        pooled::<I>(param).id_scratch.len() == 0,
        pooled::<I>(param).beam_nodes.len() == 0,
        pooled::<I>(param).range_frontier.len() == 0,
        pooled::<I>(param).in_range.len() == 0,
        pooled::<I>(param).hops == 0,
        pooled::<I>(param).cmps == 0,
{
}

/// A scratch space that no search has used yet is configured as asked.
pub proof fn law_unused_scratch<I>(search_l: usize)
    ensures
        unused::<I>(PriorityQueueConfiguration::Fixed(search_l)).search_l == search_l,
        unused::<I>(PriorityQueueConfiguration::Resizable(search_l)).search_l == search_l,
        !unused::<I>(PriorityQueueConfiguration::Fixed(search_l)).resizable,
        unused::<I>(PriorityQueueConfiguration::Resizable(search_l)).resizable,
{
}

} // verus!
