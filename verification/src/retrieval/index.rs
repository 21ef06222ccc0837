//! Nearest-neighbour search over the corpus embeddings.
use super::corpus::{neighbour_id, NeighbourCorpus, NeighbourId};
use super::leakage::AcceptFn;
use crate::binary32::Binary32;
use vstd::prelude::*;

verus! {

/// One search result.
#[derive(Clone, Copy, Debug, PartialEq)]
pub struct Candidate {
    /// The matched neighbour.
    pub id: NeighbourId,
    /// Squared L2 distance from the query. Smaller is closer.
    pub distance: Binary32,
}

/// A nearest-neighbour index over neighbour embeddings.
///
/// The trait exists because the index is the component most likely to be
/// swapped: an IVF or HNSW backend changes nothing above this line.
pub trait NeighbourIndex {
    /// Query width this index accepts.
    closed spec fn width(&self) -> nat {
        arbitrary()
    }

    /// Whether `found` is what a search for the `want` closest neighbours of
    /// `query` may give under `accept`.
    closed spec fn answers(
        &self,
        query: Seq<Binary32>,
        want: nat,
        accept: AcceptFn<'_>,
        found: Seq<Candidate>,
    ) -> bool {
        arbitrary()
    }

    /// Query width this index accepts.
    fn query_dim(&self) -> (dim: usize)
        ensures
            dim == self.width(),
    ;

    /// The `want` closest neighbours to `query`, nearest first.
    ///
    /// `accept` filters candidates during the search rather than after it, so
    /// that excluding the training document does not silently return fewer
    /// than `want` neighbours.
    fn search(&self, query: &[Binary32], want: usize, accept: &AcceptFn<'_>) -> (found: Vec<
        Candidate,
    >)
        requires
            query@.len() == self.width(),
        ensures
            self.answers(query@, want as nat, *accept, found@),
            found@.len() <= want,
            forall|j: int| 0 <= j < found@.len() ==> accept.allows((#[trigger] found@[j]).id),
    ;
}

/// The squared L2 distance of the first `upto` components, accumulated in
/// order.
pub open spec fn squared_l2_bits(a: Seq<Binary32>, b: Seq<Binary32>, upto: nat) -> u32
    decreases upto,
{
    if upto == 0 {
        0
    } else {
        let i = upto - 1;
        let diff = Binary32 { bits: a[i].difference_bits(b[i]) };
        (Binary32 { bits: squared_l2_bits(a, b, i as nat) }).sum_bits(
            (Binary32 { bits: diff.product_bits(diff) }),
        )
    }
}

/// Squared L2 distance between two vectors of one width.
pub fn squared_l2(a: &[Binary32], b: &[Binary32]) -> (distance: Binary32)
    requires
        a@.len() == b@.len(),
    ensures
        distance.bits == squared_l2_bits(a@, b@, a@.len()),
{
    let mut sum: Binary32 = Binary32::from_bits(0);
    let mut i: usize = 0;
    while i < a.len()
        invariant
            i <= a.len(),
            a@.len() == b@.len(),
            sum.bits == squared_l2_bits(a@, b@, i as nat),
        decreases a.len() - i,
    {
        let diff: Binary32 = a[i].minus(b[i]);
        sum = sum.plus(diff.times(diff));
        i = i + 1;
    }
    sum
}

/// Exhaustive exact search.
///
/// Exact rather than approximate, and linear in corpus size. That is the
/// right trade for tests, for small corpora, and as the reference an
/// approximate backend is measured against.
#[derive(Clone, Debug)]
pub struct ExactIndex {
    embed_dim: usize,
    /// `count * embed_dim`.
    embeddings: Vec<Binary32>,
}

impl ExactIndex {
    /// The width of every vector.
    pub closed spec fn dim(self) -> nat {
        self.embed_dim as nat
    }

    /// The vectors, one after the other.
    pub closed spec fn flat(self) -> Seq<Binary32> {
        self.embeddings@
    }

    /// How many whole vectors there are.
    pub open spec fn count(self) -> nat {
        if self.dim() == 0 {
            0
        } else {
            self.flat().len() / self.dim()
        }
    }

    /// The distance from `query` to vector `i`.
    #[verifier::opaque]
    pub open spec fn distance(self, query: Seq<Binary32>, i: int) -> Binary32 {
        Binary32 {
            bits: squared_l2_bits(
                query,
                super::corpus::slot(self.flat(), i, self.dim() as int),
                self.dim(),
            ),
        }
    }

    /// Whether vector `i` may be returned.
    pub open spec fn eligible(self, accept: AcceptFn<'_>, i: int) -> bool {
        0 <= i < self.count() && accept.allows(super::corpus::id_of(i as nat))
    }

    /// How many of the first `upto` vectors may be returned.
    pub open spec fn eligible_below(self, accept: AcceptFn<'_>, upto: nat) -> nat
        decreases upto,
    {
        if upto == 0 {
            0
        } else {
            self.eligible_below(accept, (upto - 1) as nat) + (if self.eligible(
                accept,
                upto - 1,
            ) {
                1nat
            } else {
                0nat
            })
        }
    }

    /// Whether vector `i` may come before vector `j`: it is no further away.
    pub open spec fn before(self, query: Seq<Binary32>, i: int, j: int) -> bool {
        self.distance(query, i).is_at_most(self.distance(query, j))
    }

    /// Whether every eligible vector among the first `upto` has a distance
    /// that is a number.
    pub open spec fn measurable(
        self,
        query: Seq<Binary32>,
        accept: AcceptFn<'_>,
        upto: nat,
    ) -> bool {
        forall|i: int|
            0 <= i < upto && self.eligible(accept, i) ==> !(#[trigger] self.distance(
                query,
                i,
            )).nan()
    }

    /// `found` holds the vectors `picks`, each with its distance.
    pub open spec fn holds(
        self,
        query: Seq<Binary32>,
        accept: AcceptFn<'_>,
        found: Seq<Candidate>,
        picks: Seq<int>,
        upto: nat,
    ) -> bool {
        &&& found.len() == picks.len()
        &&& picks.no_duplicates()
        &&& forall|p: int|
            0 <= p < picks.len() ==> 0 <= #[trigger] picks[p] < upto && self.eligible(
                accept,
                picks[p],
            ) && found[p].id == super::corpus::id_of(picks[p] as nat) && found[p].distance
                == self.distance(query, picks[p])
    }

    /// `picks` lists the first `want` eligible vectors in order of distance.
    pub open spec fn nearest_first(
        self,
        query: Seq<Binary32>,
        accept: AcceptFn<'_>,
        picks: Seq<int>,
        want: nat,
        upto: nat,
    ) -> bool {
        &&& forall|p: int, q: int|
            0 <= p < q < picks.len() ==> self.before(query, #[trigger] picks[p], #[trigger] picks[q])
        &&& forall|i: int|
            0 <= i < upto && #[trigger] self.eligible(accept, i) && !picks.contains(i)
                ==> picks.len() == want && forall|p: int|
                0 <= p < picks.len() ==> self.before(query, #[trigger] picks[p], i)
    }

    /// Build an index over every embedding in `corpus`.
    pub fn build(corpus: &NeighbourCorpus) -> (index: Self)
        ensures
            index.dim() == corpus@.dim,
            index.flat() == corpus@.embeddings,
            corpus.wf() && corpus@.dim > 0 ==> index.count() == corpus@.documents.len(),
    {
        let mut embeddings: Vec<Binary32> = Vec::new();
        embeddings.extend_from_slice(corpus.embeddings());
        proof {
            assert(embeddings@ =~= corpus@.embeddings);
            if corpus.wf() && corpus@.dim > 0 {
                let count = corpus@.documents.len() as int;
                vstd::arithmetic::div_mod::lemma_div_by_multiple(count, corpus@.dim as int);
            }
        }
        ExactIndex { embed_dim: corpus.embed_dim(), embeddings }
    }

    /// Number of indexed vectors.
    pub fn len(&self) -> (count: usize)
        ensures
            count == self.count(),
    {
        if self.embed_dim == 0 {
            0
        } else {
            self.embeddings.len() / self.embed_dim
        }
    }

    /// Whether the index is empty.
    pub fn is_empty(&self) -> (b: bool)
        ensures
            b == (self.count() == 0),
    {
        self.len() == 0
    }

    /// Something may be returned exactly where there is an eligible vector.
    pub(crate) proof fn lemma_eligible(self, accept: AcceptFn<'_>, upto: nat)
        ensures
            self.eligible_below(accept, upto) > 0 <==> exists|i: int|
                0 <= i < upto && #[trigger] self.eligible(accept, i),
        decreases upto,
    {
        if upto > 0 {
            self.lemma_eligible(accept, (upto - 1) as nat);
            if self.eligible(accept, upto - 1) {
            } else if exists|i: int| 0 <= i < upto && #[trigger] self.eligible(accept, i) {
                let i = choose|i: int| 0 <= i < upto && #[trigger] self.eligible(accept, i);
                assert(i < upto - 1);
            }
        }
    }

    proof fn lemma_vector_in_range(self, i: int)
        requires
            0 <= i < self.count(),
        ensures
            i * self.dim() + self.dim() <= self.flat().len(),
            0 <= i * self.dim(),
    {
        let dim = self.dim() as int;
        let len = self.flat().len() as int;
        vstd::arithmetic::div_mod::lemma_fundamental_div_mod(len, dim);
        let count = len / dim;
        crate::chunk::lemma_slot_in_range(i, count, dim);
        assert(count * dim <= len) by (nonlinear_arith)
            requires
                len == dim * count + len % dim,
                len % dim >= 0,
        ;
    }

    fn vector(&self, i: usize) -> (v: &[Binary32])
        requires
            i < self.count(),
        ensures
            v@ == super::corpus::slot(self.flat(), i as int, self.dim() as int),
            v@.len() == self.dim(),
    {
        let total: usize = self.embeddings.len();
        proof {
            self.lemma_vector_in_range(i as int);
            assert(total == self.flat().len());
        }
        let start: usize = i * self.embed_dim;
        vstd::slice::slice_subrange(self.embeddings.as_slice(), start, start + self.embed_dim)
    }
}

impl NeighbourIndex for ExactIndex {
    open spec fn width(&self) -> nat {
        self.dim()
    }

    /// The `want` nearest eligible vectors, nearest first. Which of two as near
    /// comes first, or stays, is left open. Where some distance is not a number
    /// the order is left open too, and only what is returned and how many is
    /// stated.
    open spec fn answers(
        &self,
        query: Seq<Binary32>,
        want: nat,
        accept: AcceptFn<'_>,
        found: Seq<Candidate>,
    ) -> bool {
        let eligible = self.eligible_below(accept, self.count());
        &&& found.len() == if want <= eligible {
            want
        } else {
            eligible
        }
        &&& exists|picks: Seq<int>| #[trigger]
            self.holds(query, accept, found, picks, self.count()) && (self.measurable(
                query,
                accept,
                self.count(),
            ) ==> self.nearest_first(query, accept, picks, want, self.count()))
    }

    fn query_dim(&self) -> (dim: usize) {
        self.embed_dim
    }

    fn search(&self, query: &[Binary32], want: usize, accept: &AcceptFn<'_>) -> (found: Vec<
        Candidate,
    >) {
        let mut best: Vec<Candidate> = Vec::new();
        let ghost mut picks: Seq<int> = Seq::empty();
        if want == 0 {
            assert(self.holds(query@, *accept, best@, picks, self.count()));
            return best;
        }
        let count: usize = self.len();
        let mut i: usize = 0;
        while i < count
            invariant
                i <= count,
                count == self.count(),
                want > 0,
                query@.len() == self.dim(),
                best@.len() <= want,
                best@.len() <= self.eligible_below(*accept, i as nat),
                best@.len() < want ==> best@.len() == self.eligible_below(*accept, i as nat),
                self.holds(query@, *accept, best@, picks, i as nat),
                self.measurable(query@, *accept, i as nat) ==> self.nearest_first(
                    query@,
                    *accept,
                    picks,
                    want as nat,
                    i as nat,
                ),
            decreases count - i,
        {
            let id: NeighbourId = neighbour_id(i);
            if accept.accepts(id) {
                let distance: Binary32 = squared_l2(query, self.vector(i));
                proof {
                    reveal(ExactIndex::distance);
                }
                if best.len() == want && best[want - 1].distance.at_most(distance) {
                    proof {
                        self.lemma_skip(query@, *accept, best@, picks, want as nat, i as nat);
                    }
                } else {
                    let mut pos: usize = 0;
                    while pos < best.len() && best[pos].distance.at_most(distance)
                        invariant
                            pos <= best.len(),
                            forall|p: int|
                                0 <= p < pos ==> (#[trigger] best@[p]).distance.is_at_most(
                                    distance,
                                ),
                        ensures
                            pos <= best.len(),
                            forall|p: int|
                                0 <= p < pos ==> (#[trigger] best@[p]).distance.is_at_most(
                                    distance,
                                ),
                            pos < best.len() ==> !best@[pos as int].distance.is_at_most(distance),
                        decreases best.len() - pos,
                    {
                        pos = pos + 1;
                    }
                    // Among equals, just before the last.
                    if pos > 0 && distance.at_most(best[pos - 1].distance) {
                        pos = pos - 1;
                    }
                    let ghost before = best@;
                    let ghost old_picks = picks;
                    best.insert(pos, Candidate { id, distance });
                    proof {
                        picks = picks.insert(pos as int, i as int);
                        self.lemma_insert(
                            query@,
                            *accept,
                            before,
                            old_picks,
                            best@,
                            picks,
                            pos as int,
                            want as nat,
                            i as nat,
                        );
                    }
                    if best.len() > want {
                        let ghost full = best@;
                        let ghost full_picks = picks;
                        best.truncate(want);
                        proof {
                            picks = picks.take(want as int);
                            self.lemma_truncate(
                                query@,
                                *accept,
                                full,
                                full_picks,
                                best@,
                                picks,
                                want as nat,
                                i as nat + 1,
                            );
                        }
                    }
                }
            } else {
                proof {
                    self.lemma_not_eligible(query@, *accept, best@, picks, want as nat, i as nat);
                }
            }
            i = i + 1;
        }
        proof {
            assert forall|j: int| 0 <= j < best@.len() implies accept.allows(
                (#[trigger] best@[j]).id,
            ) by {
                assert(self.eligible(*accept, picks[j]));
            }
        }
        best
    }
}

impl ExactIndex {
    proof fn lemma_not_eligible(
        self,
        query: Seq<Binary32>,
        accept: AcceptFn<'_>,
        found: Seq<Candidate>,
        picks: Seq<int>,
        want: nat,
        i: nat,
    )
        requires
            i < self.count(),
            !self.eligible(accept, i as int),
            self.holds(query, accept, found, picks, i),
            self.measurable(query, accept, i) ==> self.nearest_first(query, accept, picks, want, i),
        ensures
            self.eligible_below(accept, i + 1) == self.eligible_below(accept, i),
            self.holds(query, accept, found, picks, i + 1),
            self.measurable(query, accept, i + 1) ==> self.nearest_first(
                query,
                accept,
                picks,
                want,
                i + 1,
            ),
    {
    }

    proof fn lemma_skip(
        self,
        query: Seq<Binary32>,
        accept: AcceptFn<'_>,
        found: Seq<Candidate>,
        picks: Seq<int>,
        want: nat,
        i: nat,
    )
        requires
            i < self.count(),
            self.eligible(accept, i as int),
            want > 0,
            found.len() == want,
            found[want - 1].distance.is_at_most(self.distance(query, i as int)),
            self.holds(query, accept, found, picks, i),
            self.measurable(query, accept, i) ==> self.nearest_first(query, accept, picks, want, i),
        ensures
            self.holds(query, accept, found, picks, i + 1),
            self.measurable(query, accept, i + 1) ==> self.nearest_first(
                query,
                accept,
                picks,
                want,
                i + 1,
            ),
    {
        if self.measurable(query, accept, i + 1) {
            assert(self.measurable(query, accept, i));
            assert forall|p: int| 0 <= p < picks.len() implies self.before(
                query,
                #[trigger] picks[p],
                i as int,
            ) by {
                let last = picks[want - 1];
                assert(found[want - 1].distance == self.distance(query, last));
                if p < want - 1 {
                    assert(self.before(query, picks[p], last));
                }
            }
        }
    }

    proof fn lemma_insert(
        self,
        query: Seq<Binary32>,
        accept: AcceptFn<'_>,
        before: Seq<Candidate>,
        old_picks: Seq<int>,
        found: Seq<Candidate>,
        picks: Seq<int>,
        pos: int,
        want: nat,
        i: nat,
    )
        requires
            i < self.count(),
            self.eligible(accept, i as int),
            0 <= pos <= before.len(),
            found == before.insert(
                pos,
                (Candidate {
                    id: super::corpus::id_of(i),
                    distance: self.distance(query, i as int),
                }),
            ),
            picks == old_picks.insert(pos, i as int),
            forall|p: int|
                0 <= p < pos ==> (#[trigger] before[p]).distance.is_at_most(
                    self.distance(query, i as int),
                ),
            pos < before.len() ==> !before[pos].distance.is_less(self.distance(query, i as int)),
            self.holds(query, accept, before, old_picks, i),
            self.measurable(query, accept, i) ==> self.nearest_first(
                query,
                accept,
                old_picks,
                want,
                i,
            ),
            before.len() <= want,
        ensures
            self.holds(query, accept, found, picks, i + 1),
            self.measurable(query, accept, i + 1) ==> {
                &&& forall|p: int, q: int|
                    0 <= p < q < picks.len() ==> self.before(
                        query,
                        #[trigger] picks[p],
                        #[trigger] picks[q],
                    )
                &&& forall|j: int|
                    0 <= j < i + 1 && #[trigger] self.eligible(accept, j) && !picks.contains(j)
                        ==> old_picks.len() == want && (pos < want ==> forall|p: int|
                        0 <= p < want ==> self.before(query, #[trigger] picks[p], j))
            },
    {
        assert forall|p: int| 0 <= p < picks.len() implies 0 <= #[trigger] picks[p] < i + 1
            && self.eligible(accept, picks[p]) && found[p].id == super::corpus::id_of(
            picks[p] as nat,
        ) && found[p].distance == self.distance(query, picks[p]) by {
            if p < pos {
                assert(picks[p] == old_picks[p]);
            } else if p > pos {
                assert(picks[p] == old_picks[p - 1]);
            }
        }
        assert(picks.no_duplicates()) by {
            assert forall|p: int, q: int|
                0 <= p < picks.len() && 0 <= q < picks.len() && p != q implies picks[p]
                != picks[q] by {
                let op = if p < pos {
                    p
                } else {
                    p - 1
                };
                let oq = if q < pos {
                    q
                } else {
                    q - 1
                };
                if p != pos {
                    assert(picks[p] == old_picks[op]);
                }
                if q != pos {
                    assert(picks[q] == old_picks[oq]);
                }
            }
        }
        if self.measurable(query, accept, i + 1) {
            assert(self.measurable(query, accept, i));
            let d = self.distance(query, i as int);
            assert(!d.nan());
            assert forall|p: int, q: int| 0 <= p < q < picks.len() implies self.before(
                query,
                #[trigger] picks[p],
                #[trigger] picks[q],
            ) by {
                if q < pos {
                    assert(picks[p] == old_picks[p] && picks[q] == old_picks[q]);
                } else if q == pos {
                    assert(picks[p] == old_picks[p]);
                    assert(before[p].distance.is_at_most(d));
                } else if p < pos {
                    assert(picks[p] == old_picks[p] && picks[q] == old_picks[q - 1]);
                } else if p > pos {
                    assert(picks[p] == old_picks[p - 1] && picks[q] == old_picks[q - 1]);
                } else {
                    // Position `pos` held a vector that is no nearer.
                    let first = old_picks[pos];
                    assert(self.eligible(accept, first));
                    assert(!self.distance(query, first).nan());
                    assert(picks[q] == old_picks[q - 1]);
                    if q - 1 > pos {
                        assert(self.before(query, first, old_picks[q - 1]));
                    }
                }
            }
            assert forall|j: int|
                0 <= j < i + 1 && #[trigger] self.eligible(accept, j) && !picks.contains(
                    j,
                ) implies old_picks.len() == want && (pos < want ==> forall|p: int|
                0 <= p < want ==> self.before(query, #[trigger] picks[p], j)) by {
                assert(picks[pos] == i);
                assert(j != i);
                assert(!old_picks.contains(j)) by {
                    if old_picks.contains(j) {
                        let p = old_picks.index_of(j);
                        if p < pos {
                            assert(picks[p] == j);
                        } else {
                            assert(picks[p + 1] == j);
                        }
                    }
                }
                if pos < want {
                    assert forall|p: int| 0 <= p < want implies self.before(
                        query,
                        #[trigger] picks[p],
                        j,
                    ) by {
                        let last = old_picks[want - 1];
                        assert(self.before(query, last, j));
                        if p < pos {
                            assert(picks[p] == old_picks[p]);
                        } else if p > pos {
                            assert(picks[p] == old_picks[p - 1]);
                        } else {
                            assert(picks[want as int] == last);
                            assert(self.before(query, picks[p], picks[want as int]));
                        }
                    }
                }
            }
        }
    }

    proof fn lemma_truncate(
        self,
        query: Seq<Binary32>,
        accept: AcceptFn<'_>,
        full: Seq<Candidate>,
        full_picks: Seq<int>,
        found: Seq<Candidate>,
        picks: Seq<int>,
        want: nat,
        upto: nat,
    )
        requires
            want > 0,
            full.len() == want + 1,
            found == full.take(want as int),
            picks == full_picks.take(want as int),
            self.holds(query, accept, full, full_picks, upto),
            self.measurable(query, accept, upto) ==> {
                &&& forall|p: int, q: int|
                    0 <= p < q < full_picks.len() ==> self.before(
                        query,
                        #[trigger] full_picks[p],
                        #[trigger] full_picks[q],
                    )
                &&& forall|j: int|
                    0 <= j < upto && #[trigger] self.eligible(accept, j) && !full_picks.contains(j)
                        ==> forall|p: int|
                        0 <= p < want ==> self.before(query, #[trigger] full_picks[p], j)
            },
        ensures
            self.holds(query, accept, found, picks, upto),
            self.measurable(query, accept, upto) ==> self.nearest_first(
                query,
                accept,
                picks,
                want,
                upto,
            ),
    {
        assert(forall|p: int| 0 <= p < want ==> picks[p] == full_picks[p]);
        if self.measurable(query, accept, upto) {
            assert forall|j: int|
                0 <= j < upto && #[trigger] self.eligible(accept, j) && !picks.contains(
                    j,
                ) implies picks.len() == want && forall|p: int|
                0 <= p < picks.len() ==> self.before(query, #[trigger] picks[p], j) by {
                if full_picks.contains(j) {
                    let q = full_picks.index_of(j);
                    if q < want {
                        assert(picks[q] == j);
                    }
                    assert(q == want);
                }
            }
        }
    }
}

/// An exclusion does not cost a neighbour: as long as `want` vectors may be
/// returned, `want` are, whichever others are excluded.
pub proof fn law_an_exclusion_costs_no_neighbour(
    index: ExactIndex,
    query: Seq<Binary32>,
    want: nat,
    accept: AcceptFn<'_>,
    found: Seq<Candidate>,
)
    requires
        index.answers(query, want, accept, found),
        want <= index.eligible_below(accept, index.count()),
    ensures
        found.len() == want,
        forall|j: int| 0 <= j < want ==> accept.allows((#[trigger] found[j]).id),
{
    let picks = choose|picks: Seq<int>| #[trigger]
        index.holds(query, accept, found, picks, index.count());
    assert forall|j: int| 0 <= j < want implies accept.allows((#[trigger] found[j]).id) by {
        assert(index.eligible(accept, picks[j]));
    }
}

/// A number added to zero is that number, but for the sign of a zero.
pub proof fn lemma_plus_zero(x: Binary32)
    requires
        !x.negative(),
        !x.nan(),
    ensures
        (Binary32 { bits: 0 }).sum_bits(x) == x.bits,
        x.sum_bits((Binary32 { bits: 0 })) == x.bits,
{
    let zero = Binary32 { bits: 0 };
    reveal(Binary32::sum_bits);
    assert(crate::binary32::magnitude(0) == 0) by (nonlinear_arith);
    assert(zero.units() == 0);
    assert(x.bits == x.word());
    if !x.infinite() && x.word() > 0 {
        crate::binary32::lemma_magnitude_compares(0, x.word());
        crate::binary32::lemma_nearest_exact(x.bits, crate::binary32::magnitude(x.word()), 1);
    } else if x.word() == 0 {
        assert(x.bits == 0);
    }
}

/// A number less itself, squared, is zero.
proof fn lemma_no_difference(x: Binary32)
    requires
        x.finite(),
    ensures
        ({
            let diff = Binary32 { bits: x.difference_bits(x) };
            diff.bits == 0 && diff.product_bits(diff) == 0
        }),
{
    let other = Binary32 { bits: x.negated_bits() };
    reveal(Binary32::sum_bits);
    reveal(Binary32::product_bits);
    assert(other.word() == x.word());
    assert(other.negative() != x.negative());
    let zero = Binary32 { bits: 0 };
    assert(crate::binary32::magnitude(0) == 0) by (nonlinear_arith);
    assert(zero.size() == 0);
    vstd::arithmetic::power2::lemma_pow2_pos(149);
    assert(zero.size() * zero.size() == 0) by (nonlinear_arith)
        requires
            zero.size() == 0,
    ;
    crate::arithmetic::lemma_zero_is_nearest(vstd::arithmetic::power2::pow2(149));
}

/// A square is not negative.
proof fn lemma_square(x: Binary32)
    requires
        !x.nan(),
    ensures
        !(Binary32 { bits: x.product_bits(x) }).negative(),
        !(Binary32 { bits: x.product_bits(x) }).nan(),
{
    reveal(Binary32::product_bits);
    vstd::arithmetic::power2::lemma_pow2_pos(149);
    crate::binary32::lemma_nearest_exists(
        x.size() * x.size(),
        vstd::arithmetic::power2::pow2(149),
    );
}

/// A distance looks at every coordinate: of two vectors that differ in one
/// coordinate alone it is the square of the difference there, and of a vector to
/// itself it is zero.
pub proof fn law_a_distance_is_the_squared_difference(
    a: Seq<Binary32>,
    b: Seq<Binary32>,
    at: int,
)
    requires
        a.len() == b.len(),
        0 <= at < a.len(),
        forall|i: int|
            0 <= i < a.len() && i != at ==> #[trigger] a[i] == b[i] && a[i].finite(),
        !(Binary32 { bits: a[at].difference_bits(b[at]) }).nan(),
    ensures
        ({
            let diff = Binary32 { bits: a[at].difference_bits(b[at]) };
            squared_l2_bits(a, b, a.len()) == diff.product_bits(diff)
        }),
        a[at] == b[at] && a[at].finite() ==> squared_l2_bits(a, b, a.len()) == 0,
{
    lemma_one_coordinate(a, b, at, a.len());
    if a[at] == b[at] && a[at].finite() {
        lemma_no_difference(a[at]);
    }
}

proof fn lemma_one_coordinate(a: Seq<Binary32>, b: Seq<Binary32>, at: int, upto: nat)
    requires
        a.len() == b.len(),
        upto <= a.len(),
        forall|i: int|
            0 <= i < a.len() && i != at ==> #[trigger] a[i] == b[i] && a[i].finite(),
        0 <= at < a.len(),
        !(Binary32 { bits: a[at].difference_bits(b[at]) }).nan(),
    ensures
        upto <= at ==> squared_l2_bits(a, b, upto) == 0,
        upto > at ==> ({
            let diff = Binary32 { bits: a[at].difference_bits(b[at]) };
            squared_l2_bits(a, b, upto) == diff.product_bits(diff)
        }),
    decreases upto,
{
    if upto > 0 {
        let i = upto - 1;
        lemma_one_coordinate(a, b, at, i as nat);
        let diff = Binary32 { bits: a[at].difference_bits(b[at]) };
        let square = Binary32 { bits: diff.product_bits(diff) };
        lemma_square(diff);
        lemma_plus_zero(square);
        lemma_plus_zero((Binary32 { bits: 0 }));
        if i != at {
            lemma_no_difference(a[i]);
        }
    }
}

/// A search gives the nearest: what it gives carries the squared distance from
/// the query to the vector of that id, comes nearest first, and nothing that was
/// left out and accepted is nearer than anything that was given.
pub proof fn law_a_search_gives_the_nearest(
    index: ExactIndex,
    query: Seq<Binary32>,
    want: nat,
    accept: AcceptFn<'_>,
    found: Seq<Candidate>,
    p: int,
    i: int,
)
    requires
        index.answers(query, want, accept, found),
        0 < index.dim(),
        index.count() <= u32::MAX,
        forall|v: int|
            0 <= v < index.count() && accept.allows(NeighbourId(v as u32)) ==> !(Binary32 {
                bits: squared_l2_bits(
                    query,
                    index.flat().subrange(
                        #[trigger] (v * index.dim()),
                        v * index.dim() + index.dim(),
                    ),
                    index.dim(),
                ),
            }).nan(),
        0 <= p < found.len(),
        0 <= i < index.count(),
        accept.allows(NeighbourId(i as u32)),
    ensures
        found[p].id.0 < index.count(),
        accept.allows(found[p].id),
        found[p].distance.bits == squared_l2_bits(
            query,
            index.flat().subrange(
                found[p].id.0 * index.dim(),
                found[p].id.0 * index.dim() + index.dim(),
            ),
            index.dim(),
        ),
        forall|q: int|
            0 <= q < p ==> (#[trigger] found[q]).distance.is_at_most(found[p].distance)
                && found[q].id != found[p].id,
        (forall|q: int| 0 <= q < found.len() ==> (#[trigger] found[q]).id.0 != i)
            ==> found.len() == want && found[p].distance.is_at_most(
            (Binary32 {
                bits: squared_l2_bits(
                    query,
                    index.flat().subrange(i * index.dim(), i * index.dim() + index.dim()),
                    index.dim(),
                ),
            }),
        ),
{
    reveal(ExactIndex::distance);
    let picks = choose|picks: Seq<int>| #[trigger]
        index.holds(query, accept, found, picks, index.count()) && (index.measurable(
            query,
            accept,
            index.count(),
        ) ==> index.nearest_first(query, accept, picks, want, index.count()));
    assert forall|v: int|
        0 <= v < index.count() && index.eligible(accept, v) implies !(#[trigger] index.distance(
        query,
        v,
    )).nan() by {
        assert(super::corpus::id_of(v as nat) == NeighbourId(v as u32));
        let start = v * index.dim();
    }
    assert(index.measurable(query, accept, index.count()));
    assert(super::corpus::id_of(picks[p] as nat) == NeighbourId(picks[p] as u32));
    assert forall|q: int| 0 <= q < p implies (#[trigger] found[q]).distance.is_at_most(
        found[p].distance,
    ) && found[q].id != found[p].id by {
        assert(index.before(query, picks[q], picks[p]));
        assert(super::corpus::id_of(picks[q] as nat) == NeighbourId(picks[q] as u32));
    }
    if forall|q: int| 0 <= q < found.len() ==> (#[trigger] found[q]).id.0 != i {
        assert(super::corpus::id_of(i as nat) == NeighbourId(i as u32));
        assert(index.eligible(accept, i));
        assert(!picks.contains(i)) by {
            if picks.contains(i) {
                let q = picks.index_of(i);
                assert(found[q].id == super::corpus::id_of(picks[q] as nat));
            }
        }
        assert(index.before(query, picks[p], i));
    }
}

} // verus!
