//! Conversion of `.ivecs` ground truth to the ground-truth format of the index:
//! `[num_queries: u32][k: u32]`, followed by the ids of all neighbors and by their distances,
//! `k` for each query.

use vstd::arithmetic::div_mod::{lemma_fundamental_div_mod, lemma_fundamental_div_mod_converse};
use vstd::prelude::*;

use crate::fbin::{
    header, law_header_counts, law_metadata_read_back, low_word, Metadata, HEADER_BYTES,
};
use crate::vecs::{
    lemma_payloads_len, lemma_payloads_row, payloads, row_payload, row_size, shape, vecs_shape,
    VecsError, DIM_BYTES, ELEM_BYTES,
};
use crate::words::{
    bytes_of, law_word_read_back, law_word_write_back, push_words, read_word, signed, to_signed,
    word_at,
};

verus! {

/// The first word that stands for a negative number.
pub const NEGATIVE_WORDS: u32 = 0x8000_0000;

/// Why no ground truth can be made.
#[derive(Debug, Clone, Copy, PartialEq, Eq)]
pub enum GroundTruthError {
    /// The `.ivecs` file is no sequence of rows.
    Vecs(VecsError),
    /// A neighbor id is negative.
    NegativeId(i32),
    /// The query count does not match the ground-truth rows.
    QueryCount { queries: u32, rows: usize },
    /// The query dimension does not match the base dimension.
    Dimension { query: u32, base: u32 },
    /// A ground-truth id is out of range for the base vectors.
    IdOutOfRange { id: u32, base: u32 },
}

/// The neighbors of all queries: `k` ids for each of them.
#[derive(Debug)]
pub struct NeighborIds {
    /// The number of queries.
    pub num_queries: usize,
    /// The number of neighbors of a query.
    pub k: usize,
    /// The ids, query by query.
    pub ids: Vec<u32>,
}

/// Element `index` of the rows of an `.ivecs` file, counted through all rows of `k` elements.
pub open spec fn element(ivecs: Seq<u8>, k: int, index: int) -> u32 {
    word_at(
        ivecs,
        (index / k) * row_size(k, ELEM_BYTES as int) + DIM_BYTES + (index % k) * ELEM_BYTES,
    )
}

/// The elements of all rows.
pub open spec fn elements(ivecs: Seq<u8>, num_queries: usize, k: usize) -> Seq<u32> {
    Seq::new((num_queries * k) as nat, |index: int| element(ivecs, k as int, index))
}

/// The first word that is no smaller than `limit`.
pub open spec fn first_beyond(words: Seq<u32>, limit: u32) -> Option<u32>
    decreases words.len(),
{
    if words.len() == 0 {
        None
    } else if first_beyond(words.drop_last(), limit) is Some {
        first_beyond(words.drop_last(), limit)
    } else if words.last() >= limit {
        Some(words.last())
    } else {
        None
    }
}

/// Why the ids in an `.ivecs` file cannot be used, if they cannot.
pub open spec fn ids_refusal(ivecs: Seq<u8>) -> Option<GroundTruthError> {
    match shape(ivecs.len() as usize, ivecs, ELEM_BYTES) {
        Err(error) => Some(GroundTruthError::Vecs(error)),
        Ok((num_queries, k)) => match first_beyond(elements(ivecs, num_queries, k), NEGATIVE_WORDS) {
            Some(word) => Some(GroundTruthError::NegativeId(signed(word))),
            None => None,
        },
    }
}

/// Why `ids` are no neighbors of the queries among the base vectors, if they are not.
pub open spec fn neighbors_refusal(
    num_queries: usize,
    ids: Seq<u32>,
    base: Metadata,
    queries: Metadata,
) -> Option<GroundTruthError> {
    if queries.npoints != num_queries {
        Some(GroundTruthError::QueryCount { queries: queries.npoints, rows: num_queries })
    } else if queries.ndims != base.ndims {
        Some(GroundTruthError::Dimension { query: queries.ndims, base: base.ndims })
    } else {
        match first_beyond(ids, base.npoints) {
            Some(id) => Some(GroundTruthError::IdOutOfRange { id, base: base.npoints }),
            None => None,
        }
    }
}

/// The bytes of a ground-truth file.
pub open spec fn ground_truth_file(
    num_queries: usize,
    k: usize,
    ids: Seq<u32>,
    distances: Seq<u32>,
) -> Seq<u8> {
    header(num_queries, k) + bytes_of(ids) + bytes_of(distances)
}

/// `distances` are what `distance` gave for each neighbor of each query.
pub open spec fn measured<F: Fn(usize, usize) -> u32>(
    distance: F,
    k: usize,
    ids: Seq<u32>,
    distances: Seq<u32>,
) -> bool {
    &&& distances.len() == ids.len()
    &&& forall|i: int|
        0 <= i < ids.len() ==> call_ensures(
            distance,
            ((i / k as int) as usize, ids[i] as usize),
            #[trigger] distances[i],
        )
}

impl NeighborIds {
    /// There are `k` ids for each query.
    pub open spec fn wf(&self) -> bool {
        &&& self.k > 0
        &&& self.ids@.len() == self.num_queries * self.k
    }
}

/// The first word that is no smaller than `limit`.
fn find_beyond(words: &[u32], limit: u32) -> (found: Option<u32>)
    ensures
        found == first_beyond(words@, limit),
{
    let mut next: usize = 0;
    while next < words.len()
        invariant
            next <= words@.len(),
            first_beyond(words@.take(next as int), limit) is None,
        decreases words@.len() - next,
    {
        assert(words@.take(next + 1).drop_last() =~= words@.take(next as int));
        if words[next] >= limit {
            proof {
                lemma_first_beyond_prefix(words@, limit, next + 1);
            }
            return Some(words[next]);
        }
        next += 1;
    }
    assert(words@.take(words@.len() as int) =~= words@);
    None
}

/// What is found in a prefix is found.
proof fn lemma_first_beyond_prefix(words: Seq<u32>, limit: u32, len: int)
    requires
        0 <= len <= words.len(),
        first_beyond(words.take(len), limit) is Some,
    ensures
        first_beyond(words, limit) == first_beyond(words.take(len), limit),
    decreases words.len(),
{
    if len == words.len() {
        assert(words.take(len) =~= words);
    } else {
        assert(words.drop_last().take(len) =~= words.take(len));
        lemma_first_beyond_prefix(words.drop_last(), limit, len);
    }
}

/// If no word is found, all words are smaller than the limit.
pub proof fn lemma_none_beyond(words: Seq<u32>, limit: u32)
    requires
        first_beyond(words, limit) is None,
    ensures
        forall|i: int| 0 <= i < words.len() ==> (#[trigger] words[i]) < limit,
    decreases words.len(),
{
    if words.len() > 0 {
        lemma_none_beyond(words.drop_last(), limit);
        assert forall|i: int| 0 <= i < words.len() implies (#[trigger] words[i]) < limit by {
            if i < words.len() - 1 {
                assert(words.drop_last()[i] == words[i]);
            }
        }
    }
}

/// Read the elements of all rows.
fn read_elements(ivecs: &[u8], num_queries: usize, k: usize) -> (words: Vec<u32>)
    requires
        k > 0,
        num_queries * row_size(k as int, ELEM_BYTES as int) == ivecs@.len(),
    ensures
        words@ == elements(ivecs@, num_queries, k),
{
    let file_len: usize = ivecs.len();
    let mut words: Vec<u32> = Vec::new();
    let mut query: usize = 0;
    let mut at: usize = 0;
    let ghost row_bytes = row_size(k as int, ELEM_BYTES as int);
    assert(0 * row_bytes == 0 && 0 * k == 0);
    while query < num_queries
        invariant
            query <= num_queries,
            k > 0,
            row_bytes == row_size(k as int, ELEM_BYTES as int),
            num_queries * row_bytes == file_len,
            file_len == ivecs@.len(),
            at == query * row_bytes,
            words@.len() == query * k,
            forall|i: int| 0 <= i < words@.len() ==> words@[i] == element(ivecs@, k as int, i),
        decreases num_queries - query,
    {
        assert((query + 1) * row_bytes == at + row_bytes && at + row_bytes <= file_len)
            by (nonlinear_arith)
            requires
                at == query * row_bytes,
                query < num_queries,
                num_queries * row_bytes == file_len,
                row_bytes > 0,
        ;
        let ghost row_start = query * row_bytes;
        let ghost first = query * k;
        at = at + DIM_BYTES;
        let mut column: usize = 0;
        while column < k
            invariant
                column <= k,
                row_bytes == row_size(k as int, ELEM_BYTES as int),
                row_start == query * row_bytes,
                row_start + row_bytes <= file_len,
                file_len == ivecs@.len(),
                at == row_start + DIM_BYTES + column * ELEM_BYTES,
                first == query * k,
                words@.len() == first + column,
                forall|i: int| 0 <= i < words@.len() ==> words@[i] == element(ivecs@, k as int, i),
            decreases k - column,
        {
            assert(k * ELEM_BYTES == 4 * k && column * ELEM_BYTES == 4 * column)
                by (nonlinear_arith)
                requires
                    ELEM_BYTES == 4,
            ;
            words.push(read_word(ivecs, at));
            proof {
                lemma_fundamental_div_mod_converse(
                    first + column,
                    k as int,
                    query as int,
                    column as int,
                );
            }
            at = at + ELEM_BYTES;
            column = column + 1;
        }
        assert((query + 1) * k == query * k + k) by (nonlinear_arith);
        query = query + 1;
    }
    assert(words@ =~= elements(ivecs@, num_queries, k));
    words
}

/// Read the neighbors of all queries from an `.ivecs` file with one row for each query.
pub fn read_neighbor_ids(ivecs: &[u8]) -> (result: Result<NeighborIds, GroundTruthError>)
    ensures
        match result {
            Err(error) => ids_refusal(ivecs@) == Some(error),
            Ok(neighbors) => {
                &&& ids_refusal(ivecs@) is None
                &&& neighbors.wf()
                &&& shape(ivecs@.len() as usize, ivecs@, ELEM_BYTES) == Ok::<
                    (usize, usize),
                    VecsError,
                >((neighbors.num_queries, neighbors.k))
                &&& neighbors.ids@ == elements(ivecs@, neighbors.num_queries, neighbors.k)
            },
        },
{
    match vecs_shape(ivecs.len(), ivecs, ELEM_BYTES) {
        Err(error) => Err(GroundTruthError::Vecs(error)),
        Ok((num_queries, k)) => {
            let ids: Vec<u32> = read_elements(ivecs, num_queries, k);
            match find_beyond(ids.as_slice(), NEGATIVE_WORDS) {
                Some(word) => Err(GroundTruthError::NegativeId(to_signed(word))),
                None => Ok(NeighborIds { num_queries, k, ids }),
            }
        },
    }
}

/// The distances of all neighbors of all queries, as `distance` gives them.
fn measure<F: Fn(usize, usize) -> u32>(neighbors: &NeighborIds, distance: &F) -> (distances: Vec<
    u32,
>)
    requires
        neighbors.wf(),
        forall|i: int|
            0 <= i < neighbors.ids@.len() ==> call_requires(
                *distance,
                ((i / neighbors.k as int) as usize, #[trigger] neighbors.ids@[i] as usize),
            ),
    ensures
        measured(*distance, neighbors.k, neighbors.ids@, distances@),
{
    let total: usize = neighbors.ids.len();
    let mut distances: Vec<u32> = Vec::new();
    let mut query: usize = 0;
    let mut next: usize = 0;
    assert(0 * neighbors.k == 0);
    while query < neighbors.num_queries
        invariant
            query <= neighbors.num_queries,
            neighbors.wf(),
            total == neighbors.ids@.len(),
            next == query * neighbors.k,
            distances@.len() == next,
            forall|i: int|
                0 <= i < neighbors.ids@.len() ==> call_requires(
                    *distance,
                    ((i / neighbors.k as int) as usize, #[trigger] neighbors.ids@[i] as usize),
                ),
            forall|i: int|
                0 <= i < next ==> call_ensures(
                    *distance,
                    ((i / neighbors.k as int) as usize, neighbors.ids@[i] as usize),
                    #[trigger] distances@[i],
                ),
        decreases neighbors.num_queries - query,
    {
        assert((query + 1) * neighbors.k == next + neighbors.k && next + neighbors.k
            <= neighbors.ids@.len()) by (nonlinear_arith)
            requires
                next == query * neighbors.k,
                query < neighbors.num_queries,
                neighbors.ids@.len() == neighbors.num_queries * neighbors.k,
        ;
        let ghost first = query * neighbors.k;
        let mut column: usize = 0;
        while column < neighbors.k
            invariant
                column <= neighbors.k,
                neighbors.wf(),
                total == neighbors.ids@.len(),
                first == query * neighbors.k,
                next == first + column,
                first + neighbors.k <= total,
                distances@.len() == next,
                forall|i: int|
                    0 <= i < neighbors.ids@.len() ==> call_requires(
                        *distance,
                        ((i / neighbors.k as int) as usize, #[trigger] neighbors.ids@[i] as usize),
                    ),
                forall|i: int|
                    0 <= i < next ==> call_ensures(
                        *distance,
                        ((i / neighbors.k as int) as usize, neighbors.ids@[i] as usize),
                        #[trigger] distances@[i],
                    ),
            decreases neighbors.k - column,
        {
            proof {
                lemma_fundamental_div_mod_converse(
                    next as int,
                    neighbors.k as int,
                    query as int,
                    column as int,
                );
            }
            let id: u32 = neighbors.ids[next];
            distances.push(distance(query, id as usize));
            next = next + 1;
            column = column + 1;
        }
        query = query + 1;
    }
    distances
}

/// Make the ground-truth file for the neighbors of all queries, given the metadata of the base
/// vectors and of the queries. `distance` gives the distance of a query to a base vector, as
/// the bit pattern to be stored.
pub fn ground_truth<F: Fn(usize, usize) -> u32>(
    neighbors: &NeighborIds,
    base: &Metadata,
    queries: &Metadata,
    distance: &F,
) -> (result: Result<Vec<u8>, GroundTruthError>)
    requires
        neighbors.wf(),
        forall|query: usize, id: usize|
            query < queries.npoints && id < base.npoints ==> call_requires(*distance, (query, id)),
    ensures
        match result {
            Err(error) => neighbors_refusal(
                neighbors.num_queries,
                neighbors.ids@,
                *base,
                *queries,
            ) == Some(error),
            Ok(file) => {
                &&& neighbors_refusal(neighbors.num_queries, neighbors.ids@, *base, *queries)
                    is None
                &&& exists|distances: Seq<u32>|
                    {
                        &&& measured(*distance, neighbors.k, neighbors.ids@, distances)
                        &&& file@ == #[trigger] ground_truth_file(
                            neighbors.num_queries,
                            neighbors.k,
                            neighbors.ids@,
                            distances,
                        )
                    }
            },
        },
{
    if queries.npoints as u64 != neighbors.num_queries as u64 {
        return Err(
            GroundTruthError::QueryCount { queries: queries.npoints, rows: neighbors.num_queries },
        );
    }
    if queries.ndims != base.ndims {
        return Err(GroundTruthError::Dimension { query: queries.ndims, base: base.ndims });
    }
    match find_beyond(neighbors.ids.as_slice(), base.npoints) {
        Some(id) => { return Err(GroundTruthError::IdOutOfRange { id, base: base.npoints }); },
        None => {},
    }
    proof {
        lemma_none_beyond(neighbors.ids@, base.npoints);
        assert forall|i: int| 0 <= i < neighbors.ids@.len() implies call_requires(
            *distance,
            ((i / neighbors.k as int) as usize, #[trigger] neighbors.ids@[i] as usize),
        ) by {
            assert(0 <= i / (neighbors.k as int) < neighbors.num_queries) by (nonlinear_arith)
                requires
                    0 <= i < neighbors.num_queries * neighbors.k,
                    neighbors.k > 0,
            ;
        }
    }
    let distances: Vec<u32> = measure(neighbors, distance);
    let mut file: Vec<u8> = Metadata::new(neighbors.num_queries, neighbors.k).to_bytes();
    push_words(&mut file, neighbors.ids.as_slice());
    push_words(&mut file, distances.as_slice());
    assert(measured(*distance, neighbors.k, neighbors.ids@, distances@));
    assert(file@ =~= ground_truth_file(
        neighbors.num_queries,
        neighbors.k,
        neighbors.ids@,
        distances@,
    ));
    Ok(file)
}

/// Convert an `.ivecs` file with one row of neighbors for each query to a ground-truth file.
pub fn ivecs_to_ground_truth<F: Fn(usize, usize) -> u32>(
    ivecs: &[u8],
    base: &Metadata,
    queries: &Metadata,
    distance: &F,
) -> (result: Result<Vec<u8>, GroundTruthError>)
    requires
        forall|query: usize, id: usize|
            query < queries.npoints && id < base.npoints ==> call_requires(*distance, (query, id)),
    ensures
        ids_refusal(ivecs@) matches Some(error) ==> result == Err::<Vec<u8>, GroundTruthError>(
            error,
        ),
        ids_refusal(ivecs@) is None ==> (shape(ivecs@.len() as usize, ivecs@, ELEM_BYTES) matches Ok(
            (num_queries, k),
        ) && {
            let ids = elements(ivecs@, num_queries, k);
            match neighbors_refusal(num_queries, ids, *base, *queries) {
                Some(error) => result == Err::<Vec<u8>, GroundTruthError>(error),
                None => result is Ok && exists|distances: Seq<u32>|
                    {
                        &&& measured(*distance, k, ids, distances)
                        &&& result->Ok_0@ == #[trigger] ground_truth_file(
                            num_queries,
                            k,
                            ids,
                            distances,
                        )
                    },
            }
        }),
{
    match read_neighbor_ids(ivecs) {
        Err(error) => Err(error),
        Ok(neighbors) => ground_truth(&neighbors, base, queries, distance),
    }
}

/// The ids stand in a ground-truth file as they stood in the rows of the `.ivecs` file.
pub proof fn law_ids_keep_their_bytes(ivecs: Seq<u8>, num_queries: usize, k: usize)
    requires
        k > 0,
        num_queries * row_size(k as int, ELEM_BYTES as int) == ivecs.len(),
    ensures
        bytes_of(elements(ivecs, num_queries, k)) == payloads(
            ivecs,
            row_size(k as int, ELEM_BYTES as int),
            num_queries as nat,
        ),
{
    let row_bytes = row_size(k as int, ELEM_BYTES as int);
    let width = 4 * k as int;
    assert(row_bytes == DIM_BYTES + width) by {
        assert(k * ELEM_BYTES == 4 * k) by (nonlinear_arith)
            requires
                ELEM_BYTES == 4,
        ;
    }
    let data = payloads(ivecs, row_bytes, num_queries as nat);
    let words = elements(ivecs, num_queries, k);
    lemma_payloads_len(ivecs, row_bytes, num_queries as nat);
    assert(num_queries * width == 4 * (num_queries * k)) by (nonlinear_arith)
        requires
            width == 4 * k,
    ;
    assert forall|index: int| 0 <= index < words.len() implies words[index] == word_at(
        data,
        4 * index,
    ) by {
        let query = index / k as int;
        let column = index % k as int;
        lemma_fundamental_div_mod(index, k as int);
        assert(0 <= query < num_queries) by (nonlinear_arith)
            requires
                0 <= index < num_queries * k,
                k > 0,
                query == index / k as int,
        ;
        lemma_payloads_row(ivecs, row_bytes, num_queries as nat, query);
        let row = row_payload(ivecs, row_bytes, query);
        let at = 4 * column;
        assert(4 * index == query * width + at && (query + 1) * width == query * width + width
            && query * width >= 0) by (nonlinear_arith)
            requires
                index == k * query + column,
                width == 4 * k,
                at == 4 * column,
                query >= 0,
                width > 0,
        ;
        assert((query + 1) * row_bytes == query * row_bytes + row_bytes && query * row_bytes >= 0
            && (query + 1) * row_bytes <= num_queries * row_bytes) by (nonlinear_arith)
            requires
                0 <= query < num_queries,
                row_bytes > 0,
        ;
        assert(column * ELEM_BYTES == at) by (nonlinear_arith)
            requires
                ELEM_BYTES == 4,
                at == 4 * column,
        ;
        let start = query * row_bytes + DIM_BYTES + at;
        assert forall|i: int| 0 <= i < 4 implies #[trigger] data[4 * index + i] == ivecs[start
            + i] by {
            assert(data.subrange(query * width, (query + 1) * width)[at + i] == row[at + i]);
        }
        assert(data[4 * index + 0] == ivecs[start + 0]);
        assert(data[4 * index + 1] == ivecs[start + 1]);
        assert(data[4 * index + 2] == ivecs[start + 2]);
        assert(data[4 * index + 3] == ivecs[start + 3]);
    }
    law_word_write_back(data, words);
}

/// A word that lies inside the middle of three sequences lies there in their concatenation.
proof fn lemma_word_inside(before: Seq<u8>, middle: Seq<u8>, after: Seq<u8>, at: int)
    requires
        0 <= at,
        at + 4 <= middle.len(),
    ensures
        word_at(before + middle + after, before.len() + at) == word_at(middle, at),
{
    let all = before + middle + after;
    let start = before.len() + at;
    assert(all[start] == middle[at]);
    assert(all[start + 1] == middle[at + 1]);
    assert(all[start + 2] == middle[at + 2]);
    assert(all[start + 3] == middle[at + 3]);
}

/// Reading a ground-truth file gives back what it was made of: the counts, as long as 32 bits
/// can say them, the id and the distance of every neighbor of every query, and nothing more.
pub proof fn law_ground_truth_read_back(
    num_queries: usize,
    k: usize,
    ids: Seq<u32>,
    distances: Seq<u32>,
    index: int,
)
    requires
        ids.len() == num_queries * k,
        distances.len() == ids.len(),
        0 <= index < ids.len(),
    ensures
        ({
            let file = ground_truth_file(num_queries, k, ids, distances);
            &&& num_queries <= u32::MAX ==> word_at(file, 0) == num_queries
            &&& k <= u32::MAX ==> word_at(file, 4) == k
            &&& word_at(file, HEADER_BYTES + 4 * index) == ids[index]
            &&& word_at(file, HEADER_BYTES + 4 * ids.len() + 4 * index) == distances[index]
            &&& file.len() == HEADER_BYTES + 8 * ids.len()
        }),
{
    let file = ground_truth_file(num_queries, k, ids, distances);
    let metadata = Metadata { npoints: low_word(num_queries), ndims: low_word(k) };
    let counts = header(num_queries, k);
    let at = 4 * index;
    assert(word_at(file, 0) == metadata.npoints && word_at(file, 4) == metadata.ndims) by {
        law_metadata_read_back(metadata, bytes_of(ids) + bytes_of(distances));
        assert(file =~= metadata.bytes() + (bytes_of(ids) + bytes_of(distances)));
    }
    assert(word_at(file, counts.len() + at) == ids[index]) by {
        law_word_read_back(ids, index);
        lemma_word_inside(counts, bytes_of(ids), bytes_of(distances), at);
    }
    assert(word_at(file, counts.len() + bytes_of(ids).len() + at) == distances[index]) by {
        law_word_read_back(distances, index);
        lemma_word_inside(counts + bytes_of(ids), bytes_of(distances), Seq::empty(), at);
        assert(file =~= (counts + bytes_of(ids)) + bytes_of(distances) + Seq::empty());
    }
}

/// A ground-truth file is eight bytes for the counts and four for each id and each distance. A
/// count that 32 bits cannot say is cut to its low 32 bits.
pub proof fn law_ground_truth_size(
    num_queries: usize,
    k: usize,
    ids: Seq<u32>,
    distances: Seq<u32>,
)
    ensures
        ground_truth_file(num_queries, k, ids, distances).len() == 8 + 4 * ids.len() + 4
            * distances.len(),
        (num_queries - word_at(ground_truth_file(num_queries, k, ids, distances), 0))
            % 0x1_0000_0000 == 0,
        (k - word_at(ground_truth_file(num_queries, k, ids, distances), 4)) % 0x1_0000_0000 == 0,
{
    let file = ground_truth_file(num_queries, k, ids, distances);
    let metadata = Metadata { npoints: low_word(num_queries), ndims: low_word(k) };
    law_header_counts(num_queries, k);
    law_metadata_read_back(metadata, bytes_of(ids) + bytes_of(distances));
    assert(file =~= metadata.bytes() + (bytes_of(ids) + bytes_of(distances)));
}

/// The elements of an `.ivecs` file are the words behind the dimension of each row, row by row.
pub proof fn law_elements_of_rows(
    ivecs: Seq<u8>,
    num_queries: usize,
    k: usize,
    query: int,
    column: int,
)
    requires
        0 <= query < num_queries,
        0 <= column < k,
    ensures
        elements(ivecs, num_queries, k).len() == num_queries * k,
        0 <= query * k + column < num_queries * k,
        elements(ivecs, num_queries, k)[query * k + column] == word_at(
            ivecs,
            query * (4 + 4 * k) + 4 + 4 * column,
        ),
{
    let index = query * k + column;
    assert(0 <= index < num_queries * k) by (nonlinear_arith)
        requires
            0 <= query < num_queries,
            0 <= column < k,
            index == query * k + column,
    ;
    lemma_fundamental_div_mod_converse(index, k as int, query, column);
    assert(k * ELEM_BYTES == 4 * k && column * ELEM_BYTES == 4 * column) by (nonlinear_arith)
        requires
            ELEM_BYTES == 4,
    ;
}

/// The first word that is no smaller than the limit is one of the words, and all words before it
/// are smaller; where none is found, all words are smaller.
pub proof fn law_first_beyond(words: Seq<u32>, limit: u32)
    ensures
        match first_beyond(words, limit) {
            Some(word) => word >= limit && exists|i: int|
                {
                    &&& 0 <= i < words.len()
                    &&& #[trigger] words[i] == word
                    &&& forall|j: int| 0 <= j < i ==> (#[trigger] words[j]) < limit
                },
            None => forall|i: int| 0 <= i < words.len() ==> (#[trigger] words[i]) < limit,
        },
    decreases words.len(),
{
    if words.len() > 0 {
        let init = words.drop_last();
        law_first_beyond(init, limit);
        assert(forall|i: int| 0 <= i < init.len() ==> #[trigger] init[i] == words[i]);
        if first_beyond(init, limit) is Some {
            let word = first_beyond(init, limit)->Some_0;
            let i = choose|i: int|
                {
                    &&& 0 <= i < init.len()
                    &&& #[trigger] init[i] == word
                    &&& forall|j: int| 0 <= j < i ==> (#[trigger] init[j]) < limit
                };
            assert(words[i] == word);
            assert forall|j: int| 0 <= j < i implies (#[trigger] words[j]) < limit by {
                assert(init[j] == words[j]);
            }
        } else {
            assert forall|j: int| 0 <= j < init.len() implies (#[trigger] words[j]) < limit by {
                assert(init[j] == words[j]);
            }
            if words.last() >= limit {
                assert(words[words.len() - 1] == words.last());
            }
        }
    }
}

/// The ids of an `.ivecs` file are refused exactly if the file has no shape, with the error of the
/// shape, or if an id is negative, with the first such id.
pub proof fn law_ids_refusal(ivecs: Seq<u8>)
    ensures
        match (shape(ivecs.len() as usize, ivecs, 4), ids_refusal(ivecs)) {
            (Err(error), refusal) => refusal == Some(GroundTruthError::Vecs(error)),
            (Ok((num_queries, k)), Some(GroundTruthError::NegativeId(id))) => id < 0 && exists|i: int|
                {
                    &&& 0 <= i < elements(ivecs, num_queries, k).len()
                    &&& signed(#[trigger] elements(ivecs, num_queries, k)[i]) == id
                    &&& forall|j: int|
                        0 <= j < i ==> signed(#[trigger] elements(ivecs, num_queries, k)[j]) >= 0
                },
            (Ok((num_queries, k)), None) => forall|i: int|
                0 <= i < elements(ivecs, num_queries, k).len() ==> signed(
                    #[trigger] elements(ivecs, num_queries, k)[i],
                ) >= 0,
            _ => false,
        },
{
    match shape(ivecs.len() as usize, ivecs, 4) {
        Ok((num_queries, k)) => {
            law_first_beyond(elements(ivecs, num_queries, k), NEGATIVE_WORDS);
        },
        Err(_) => {},
    }
}

/// Neighbors are refused exactly if there is not one row of them for each query, or if the queries
/// have another dimension than the base vectors, or if there is no base vector with one of their
/// ids, in this order, and for the first such id.
pub proof fn law_neighbors_refusal(
    num_queries: usize,
    ids: Seq<u32>,
    base: Metadata,
    queries: Metadata,
)
    ensures
        match neighbors_refusal(num_queries, ids, base, queries) {
            Some(GroundTruthError::QueryCount { queries: count, rows }) => {
                &&& count == queries.npoints
                &&& rows == num_queries
                &&& count != rows
            },
            Some(GroundTruthError::Dimension { query, base: dim }) => {
                &&& queries.npoints == num_queries
                &&& query == queries.ndims
                &&& dim == base.ndims
                &&& query != dim
            },
            Some(GroundTruthError::IdOutOfRange { id, base: count }) => {
                &&& queries.npoints == num_queries
                &&& queries.ndims == base.ndims
                &&& count == base.npoints
                &&& id >= count
                &&& exists|i: int|
                    {
                        &&& 0 <= i < ids.len()
                        &&& #[trigger] ids[i] == id
                        &&& forall|j: int| 0 <= j < i ==> (#[trigger] ids[j]) < count
                    }
            },
            Some(_) => false,
            None => {
                &&& queries.npoints == num_queries
                &&& queries.ndims == base.ndims
                &&& forall|i: int| 0 <= i < ids.len() ==> (#[trigger] ids[i]) < base.npoints
            },
        },
{
    law_first_beyond(ids, base.npoints);
}

/// The distances are those of each query to its own neighbors, in the order of the ids.
pub proof fn law_distances_of_neighbors<F: Fn(usize, usize) -> u32>(
    distance: F,
    num_queries: usize,
    k: usize,
    ids: Seq<u32>,
    distances: Seq<u32>,
    query: usize,
    column: int,
)
    requires
        measured(distance, k, ids, distances),
        ids.len() == num_queries * k,
        query < num_queries,
        0 <= column < k,
    ensures
        distances.len() == num_queries * k,
        call_ensures(
            distance,
            (query, ids[query * k + column] as usize),
            distances[query * k + column],
        ),
{
    let index = query * k + column;
    assert(0 <= index < num_queries * k) by (nonlinear_arith)
        requires
            0 <= query < num_queries,
            0 <= column < k,
            index == query * k + column,
    ;
    lemma_fundamental_div_mod_converse(index, k as int, query as int, column);
    assert(distances[index] == distances[index]);
}

} // verus!
