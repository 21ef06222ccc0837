//! Keeping the training document out of its own retrieval results.
//!
//! # Why not filter inline against the noised view
//!
//! Masked positions cannot match anything, so an n-gram filter run against
//! the *noised* view is blindest exactly where the leak lives: a neighbour
//! whose continuation supplies the tokens that were masked has, by
//! construction, no overlap to detect at those positions.
//!
//! # Why not filter inline against the clean sequence
//!
//! It works, but it opens a second-order channel: which neighbours survive
//! now depends on the clean sequence, so information about it reaches the
//! forward pass through the *composition* of the surviving set.
//!
//! # What this module does instead
//!
//! * **At query time**: exclude by source document ([`LeakageGuard`]).
//!   Exact, cheap, and independent of the masking, so it opens no channel.
//! * **At corpus preparation time**: run the n-gram overlap filter against
//!   the clean document *before training starts* ([`LeakageGuard::audit`]),
//!   and fold the result into the same exclusion set.
use super::corpus::{neighbour_id, DocumentId, NeighbourCorpus, NeighbourId};
use crate::binary32::Binary32;
use crate::schedule::is_in_unit_interval;
use std::collections::{HashMap, HashSet};
use vstd::prelude::*;

verus! {

broadcast use vstd::std_specs::hash::group_hash_axioms;

/// The distinct `n`-grams at the first `upto` positions of `a`.
pub open spec fn grams(a: Seq<u32>, n: int, upto: int) -> Set<Seq<u32>>
    decreases upto,
{
    if upto <= 0 {
        Set::empty()
    } else {
        grams(a, n, upto - 1).insert(a.subrange(upto - 1, upto - 1 + n))
    }
}

/// The distinct `n`-grams of `a`.
pub open spec fn all_grams(a: Seq<u32>, n: int) -> Set<Seq<u32>> {
    grams(a, n, a.len() - n + 1)
}

/// The share of `a`'s distinct `n`-grams that also occur in `b`, as a word.
pub open spec fn overlap_bits(a: Seq<u32>, b: Seq<u32>, n: int) -> u32 {
    if n == 0 || a.len() < n {
        0
    } else {
        Binary32::ratio_bits(
            all_grams(a, n).intersect(all_grams(b, n)).len(),
            all_grams(a, n).len(),
        )
    }
}

/// A set of grams holds exactly the windows it was made from.
pub proof fn lemma_grams(a: Seq<u32>, n: int, upto: int, gram: Seq<u32>)
    ensures
        grams(a, n, upto).finite(),
        grams(a, n, upto).contains(gram) <==> exists|i: int|
            0 <= i < upto && #[trigger] a.subrange(i, i + n) == gram,
        upto >= 0 ==> grams(a, n, upto).len() <= upto,
        upto > 0 ==> grams(a, n, upto).len() > 0,
    decreases upto,
{
    if upto > 0 {
        lemma_grams(a, n, upto - 1, gram);
        let last = a.subrange(upto - 1, upto - 1 + n);
        if grams(a, n, upto).contains(gram) {
            if gram == last {
                assert(a.subrange(upto - 1, upto - 1 + n) == gram);
            } else {
                let i = choose|i: int| 0 <= i < upto - 1 && #[trigger] a.subrange(i, i + n) == gram;
                assert(0 <= i < upto && a.subrange(i, i + n) == gram);
            }
        }
        assert(grams(a, n, upto).contains(last));
        if grams(a, n, upto).len() == 0 {
            assert(grams(a, n, upto) =~= Set::empty());
        }
    }
}

/// Whether the windows of `a` at `i` and of `b` at `j` are equal.
fn same_window(a: &[u32], i: usize, b: &[u32], j: usize, n: usize) -> (same: bool)
    requires
        i + n <= a@.len(),
        j + n <= b@.len(),
    ensures
        same == (a@.subrange(i as int, i + n) == b@.subrange(j as int, j + n)),
{
    let ghost x = a@.subrange(i as int, i + n);
    let ghost y = b@.subrange(j as int, j + n);
    let a_len: usize = a.len();
    let b_len: usize = b.len();
    let mut k: usize = 0;
    while k < n
        invariant
            k <= n,
            i + n <= a_len,
            j + n <= b_len,
            a_len == a@.len(),
            b_len == b@.len(),
            x == a@.subrange(i as int, i + n),
            y == b@.subrange(j as int, j + n),
            forall|p: int| 0 <= p < k ==> #[trigger] x[p] == y[p],
        decreases n - k,
    {
        if a[i + k] != b[j + k] {
            proof {
                assert(x[k as int] != y[k as int]);
            }
            return false;
        }
        k = k + 1;
    }
    proof {
        assert(x =~= y);
    }
    true
}

/// Whether the window of `a` at `i` is one of the first `upto` windows of `b`.
fn occurs(a: &[u32], i: usize, b: &[u32], upto: usize, n: usize) -> (found: bool)
    requires
        i + n <= a@.len(),
        upto > 0 ==> upto - 1 + n <= b@.len(),
    ensures
        found == grams(b@, n as int, upto as int).contains(a@.subrange(i as int, i + n)),
{
    let ghost gram = a@.subrange(i as int, i + n);
    let mut j: usize = 0;
    while j < upto
        invariant
            j <= upto,
            i + n <= a@.len(),
            upto > 0 ==> upto - 1 + n <= b@.len(),
            gram == a@.subrange(i as int, i + n),
            forall|p: int| 0 <= p < j ==> #[trigger] b@.subrange(p, p + n) != gram,
        decreases upto - j,
    {
        if same_window(a, i, b, j, n) {
            proof {
                lemma_grams(b@, n as int, upto as int, gram);
                assert(b@.subrange(j as int, j + n) == gram);
            }
            return true;
        }
        j = j + 1;
    }
    proof {
        lemma_grams(b@, n as int, upto as int, gram);
    }
    false
}

/// Fraction of `a`'s distinct `n`-grams that also occur in `b`.
///
/// Returns `0.0` when `a` is shorter than `n`, since there is nothing to
/// compare. Distinct rather than positional: a neighbour that repeats one
/// shared phrase many times is not more of a duplicate than one that says it
/// once.
pub fn ngram_overlap(a: &[u32], b: &[u32], n: usize) -> (overlap: Binary32)
    ensures
        overlap.bits == overlap_bits(a@, b@, n as int),
{
    if n == 0 || a.len() < n {
        return Binary32::from_bits(0);
    }
    let windows: usize = a.len() - n + 1;
    let b_windows: usize = if b.len() < n {
        0
    } else {
        b.len() - n + 1
    };
    let ghost in_b = all_grams(b@, n as int);
    proof {
        if b@.len() < n {
            assert(in_b =~= Set::empty());
        }
        assert(in_b == grams(b@, n as int, b_windows as int));
        assert(grams(a@, n as int, 0).intersect(in_b) =~= Set::empty());
    }
    let mut distinct: usize = 0;
    let mut shared: usize = 0;
    let mut i: usize = 0;
    while i < windows
        invariant
            i <= windows,
            0 < n <= a@.len(),
            windows == a@.len() - n + 1,
            b_windows > 0 ==> b_windows - 1 + n <= b@.len(),
            in_b == grams(b@, n as int, b_windows as int),
            shared <= i,
            distinct <= i,
            distinct == grams(a@, n as int, i as int).len(),
            shared == grams(a@, n as int, i as int).intersect(in_b).len(),
        decreases windows - i,
    {
        let ghost seen = grams(a@, n as int, i as int);
        let ghost gram = a@.subrange(i as int, i + n);
        proof {
            lemma_grams(a@, n as int, i as int, gram);
            if !seen.contains(gram) {
                lemma_insert_shared(seen, in_b, gram);
            }
        }
        if !occurs(a, i, a, i, n) {
            distinct = distinct + 1;
            if occurs(a, i, b, b_windows, n) {
                shared = shared + 1;
            }
        } else {
            proof {
                assert(seen.insert(gram) =~= seen);
            }
        }
        i = i + 1;
    }
    Binary32::ratio(shared as u64, distinct as u64)
}

proof fn lemma_insert_shared(seen: Set<Seq<u32>>, other: Set<Seq<u32>>, gram: Seq<u32>)
    requires
        seen.finite(),
        !seen.contains(gram),
    ensures
        seen.insert(gram).len() == seen.len() + 1,
        other.contains(gram) ==> seen.insert(gram).intersect(other).len() == seen.intersect(
            other,
        ).len() + 1,
        !other.contains(gram) ==> seen.insert(gram).intersect(other).len() == seen.intersect(
            other,
        ).len(),
{
    if other.contains(gram) {
        assert(seen.insert(gram).intersect(other) =~= seen.intersect(other).insert(gram));
    } else {
        assert(seen.insert(gram).intersect(other) =~= seen.intersect(other));
    }
}

/// N-gram overlap threshold for the offline audit.
#[derive(Clone, Copy, Debug)]
pub struct NgramOverlapFilter {
    n: usize,
    max_overlap: Binary32,
}

impl PartialEq for NgramOverlapFilter {
    fn eq(&self, other: &Self) -> (b: bool) {
        self.n == other.n && self.max_overlap.same(other.max_overlap)
    }
}

impl vstd::std_specs::cmp::PartialEqSpecImpl for NgramOverlapFilter {
    open spec fn obeys_eq_spec() -> bool {
        true
    }

    open spec fn eq_spec(&self, other: &Self) -> bool {
        self.n() == other.n() && self.limit().is_same(other.limit())
    }
}

impl NgramOverlapFilter {
    /// The n-gram order.
    pub closed spec fn n(self) -> usize {
        self.n
    }

    /// The largest tolerated overlap.
    pub closed spec fn limit(self) -> Binary32 {
        self.max_overlap
    }

    /// Whether `neighbour` overlaps `document` beyond the threshold.
    pub open spec fn too_close(self, neighbour: Seq<u32>, document: Seq<u32>) -> bool {
        self.limit().is_less((Binary32 { bits: overlap_bits(neighbour, document, self.n() as int) }))
    }

    /// Reject neighbours sharing more than `max_overlap` of their `n`-grams
    /// with the training document.
    pub fn new(n: usize, max_overlap: Binary32) -> (filter: Option<Self>)
        ensures
            filter is Some <==> n > 0 && crate::schedule::in_unit_interval(max_overlap),
            filter is Some ==> filter->0.n() == n && filter->0.limit() == max_overlap,
    {
        if n > 0 && is_in_unit_interval(max_overlap) {
            Some(NgramOverlapFilter { n, max_overlap })
        } else {
            None
        }
    }

    /// N-gram order.
    pub fn order(self) -> (n: usize)
        ensures
            n == self.n(),
    {
        self.n
    }

    /// Maximum tolerated overlap.
    pub fn max_overlap(self) -> (x: Binary32)
        ensures
            x == self.limit(),
    {
        self.max_overlap
    }

    /// Whether `neighbour` overlaps `document` beyond the threshold.
    pub fn rejects(self, neighbour: &[u32], document: &[u32]) -> (b: bool)
        ensures
            b == self.too_close(neighbour@, document@),
    {
        self.max_overlap.less(ngram_overlap(neighbour, document, self.n))
    }
}

impl Default for NgramOverlapFilter {
    /// 8-grams at 10%: well past coincidence for natural text, and the regime
    /// where copy-from-neighbour starts to pay off.
    fn default() -> (filter: Self)
        ensures
            filter.n() == 8,
            filter.limit().bits == 0x3DCC_CCCD,
    {
        NgramOverlapFilter { n: 8, max_overlap: Binary32::from_bits(0x3DCC_CCCD) }
    }
}

/// Decides which neighbours a given training document is allowed to retrieve.
///
/// Pass [`LeakageGuard::accept_fn`] to [`super::index::NeighbourIndex::search`]
/// so exclusions apply *during* the search. Filtering afterwards silently
/// returns fewer than `k` neighbours, and that is a change in the experiment,
/// not in the safety margin.
#[derive(Clone, Debug, Default)]
pub struct LeakageGuard {
    exclude_source_document: bool,
    audited: HashMap<u64, HashSet<u32>>,
}

impl LeakageGuard {
    /// Whether a document's own neighbours are excluded.
    pub closed spec fn by_source(self) -> bool {
        self.exclude_source_document
    }

    /// The neighbours that the audit excluded for `document`.
    pub closed spec fn excluded(self, document: DocumentId) -> Set<u32> {
        if self.audited@.contains_key(document.0) {
            self.audited@[document.0]@
        } else {
            Set::empty()
        }
    }

    /// Whether `candidate` may be retrieved while training on `document`.
    pub open spec fn allows(
        self,
        document: DocumentId,
        candidate: NeighbourId,
        corpus: NeighbourCorpus,
    ) -> bool {
        &&& !(self.by_source() && corpus.source_of(candidate) == Some(document))
        &&& !self.excluded(document).contains(candidate.0)
    }

    /// The neighbours among the first `upto` of `corpus` that overlap
    /// `clean` beyond the threshold.
    pub open spec fn overlapping(
        corpus: NeighbourCorpus,
        clean: Seq<u32>,
        filter: NgramOverlapFilter,
        upto: nat,
    ) -> Set<u32>
        decreases upto,
    {
        if upto == 0 {
            Set::empty()
        } else {
            let rest = Self::overlapping(corpus, clean, filter, (upto - 1) as nat);
            let id = super::corpus::id_of((upto - 1) as nat);
            if id.0 * corpus@.r + corpus@.r <= corpus@.tokens.len() && filter.too_close(
                super::corpus::slot(corpus@.tokens, id.0 as int, corpus@.r as int),
                clean,
            ) {
                rest.insert(id.0)
            } else {
                rest
            }
        }
    }

    /// A guard that excludes neighbours drawn from the training document
    /// itself. This is the minimum; it is not sufficient on its own, because
    /// near-duplicates live under other document ids.
    pub fn by_source_document() -> (guard: Self)
        ensures
            guard.by_source(),
            forall|document: DocumentId| #[trigger] guard.excluded(document) == Set::<u32>::empty(),
    {
        LeakageGuard { exclude_source_document: true, audited: HashMap::new() }
    }

    /// A guard that excludes nothing.
    ///
    /// Only correct when the index provably does not contain the training
    /// data.
    pub fn disabled() -> (guard: Self)
        ensures
            !guard.by_source(),
            forall|document: DocumentId| #[trigger] guard.excluded(document) == Set::<u32>::empty(),
    {
        LeakageGuard { exclude_source_document: false, audited: HashMap::new() }
    }

    /// Run the offline n-gram audit for one training document.
    ///
    /// Scans the whole corpus once and records every neighbour that overlaps
    /// `clean_tokens` beyond `filter`'s threshold. Intended to run at data
    /// preparation time, against the clean document, before any training
    /// step.
    ///
    /// Returns the number of neighbours newly excluded.
    pub fn audit(
        &mut self,
        document: DocumentId,
        clean_tokens: &[u32],
        corpus: &NeighbourCorpus,
        filter: NgramOverlapFilter,
    ) -> (added: usize)
        ensures
            final(self).by_source() == old(self).by_source(),
            final(self).excluded(document) == old(self).excluded(document).union(
                Self::overlapping(*corpus, clean_tokens@, filter, corpus@.documents.len()),
            ),
            forall|other: DocumentId|
                other != document ==> #[trigger] final(self).excluded(other) == old(self).excluded(
                    other,
                ),
            final(self).excluded(document).len() == old(self).excluded(document).len() + added,
    {
        let mut entry: HashSet<u32> = match self.audited.remove(&document.0) {
            Some(set) => set,
            None => HashSet::new(),
        };
        let ghost start = entry@;
        proof {
            assert(start =~= old(self).excluded(document));
            lemma_ids_finite(start);
        }
        let mut added: usize = 0;
        let count: usize = corpus.len();
        let mut i: usize = 0;
        while i < count
            invariant
                i <= count,
                count == corpus@.documents.len(),
                added <= i,
                entry@.finite(),
                entry@ =~= start.union(Self::overlapping(*corpus, clean_tokens@, filter, i as nat)),
                entry@.len() == start.len() + added,
            decreases count - i,
        {
            let id: NeighbourId = neighbour_id(i);
            match corpus.tokens(id) {
                Some(tokens) => {
                    if filter.rejects(tokens, clean_tokens) {
                        if entry.insert(id.0) {
                            added = added + 1;
                        }
                    }
                },
                None => {},
            }
            i = i + 1;
        }
        self.audited.insert(document.0, entry);
        added
    }

    /// How many neighbours the audit excluded for `document`.
    pub fn audited_exclusions(&self, document: DocumentId) -> (count: usize)
        ensures
            count == self.excluded(document).len(),
    {
        match self.audited.get(&document.0) {
            Some(set) => set.len(),
            None => 0,
        }
    }

    /// Whether `candidate` may be retrieved while training on `document`.
    pub fn accepts(
        &self,
        document: DocumentId,
        candidate: NeighbourId,
        corpus: &NeighbourCorpus,
    ) -> (b: bool)
        ensures
            b == self.allows(document, candidate, *corpus),
    {
        if self.exclude_source_document {
            match corpus.document(candidate) {
                Some(source) => {
                    if source == document {
                        return false;
                    }
                },
                None => {},
            }
        }
        match self.audited.get(&document.0) {
            Some(set) => !set.contains(&candidate.0),
            None => true,
        }
    }

    /// An acceptance rule for [`super::index::NeighbourIndex::search`].
    pub fn accept_fn<'a>(
        &'a self,
        document: DocumentId,
        corpus: &'a NeighbourCorpus,
    ) -> (accept: AcceptFn<'a>)
        ensures
            accept == accept_rule(*self, document, *corpus),
            forall|id: NeighbourId| #[trigger]
                accept.allows(id) == self.allows(document, id, *corpus),
    {
        AcceptFn { guard: self, document, corpus }
    }
}

/// The acceptance rule that `guard` has for `document`.
pub closed spec fn accept_rule(
    guard: LeakageGuard,
    document: DocumentId,
    corpus: NeighbourCorpus,
) -> AcceptFn<'static> {
    AcceptFn { guard: &guard, document, corpus: &corpus }
}

/// The acceptance rule of a guard accepts exactly what the guard allows.
pub proof fn law_the_acceptance_rule_is_the_guard(
    guard: LeakageGuard,
    document: DocumentId,
    corpus: NeighbourCorpus,
    id: NeighbourId,
)
    ensures
        accept_rule(guard, document, corpus).allows(id) == guard.allows(document, id, corpus),
{
}

/// The acceptance rule of one training document.
#[derive(Clone, Copy, Debug)]
pub struct AcceptFn<'a> {
    guard: &'a LeakageGuard,
    document: DocumentId,
    corpus: &'a NeighbourCorpus,
}

impl<'a> AcceptFn<'a> {
    /// Whether `id` may be retrieved.
    pub closed spec fn allows(self, id: NeighbourId) -> bool {
        self.guard.allows(self.document, id, *self.corpus)
    }

    /// Whether `id` may be retrieved.
    pub fn accepts(&self, id: NeighbourId) -> (b: bool)
        ensures
            b == self.allows(id),
    {
        self.guard.accepts(self.document, id, self.corpus)
    }
}

/// There are finitely many ids, so every set of them is finite.
proof fn lemma_ids_finite(s: Set<u32>)
    ensures
        s.finite(),
{
    let range = vstd::set_lib::set_int_range(0, 0x1_0000_0000);
    vstd::set_lib::lemma_int_range(0, 0x1_0000_0000);
    let all = range.map(|i: int| i as u32);
    range.lemma_map_finite(|i: int| i as u32);
    assert forall|x: u32| s.contains(x) implies #[trigger] all.contains(x) by {
        assert(range.contains(x as int));
        assert((x as int) as u32 == x);
    }
    vstd::set_lib::lemma_set_subset_finite(all, s);
}

/// The overlap of two texts is a fraction, and a text as long as a gram
/// overlaps itself wholly.
pub proof fn law_overlap_is_a_fraction(a: Seq<u32>, b: Seq<u32>, n: int)
    requires
        0 <= n,
        a.len() <= usize::MAX,
    ensures
        overlap_bits(a, b, n) <= crate::binary32::ONE_BITS,
        0 < n <= a.len() ==> overlap_bits(a, a, n) == crate::binary32::ONE_BITS,
{
    if 0 < n <= a.len() {
        let own = all_grams(a, n);
        lemma_grams(a, n, a.len() - n + 1, Seq::empty());
        vstd::set_lib::lemma_len_intersect(own, all_grams(b, n));
        assert(own.intersect(own) =~= own);
        crate::arithmetic::lemma_ratio_bounds(own.intersect(all_grams(b, n)).len(), own.len());
        crate::arithmetic::lemma_ratio_bounds(own.len(), own.len());
    }
}

/// Auditing a document again with the same text, corpus and filter finds
/// nothing new.
pub proof fn law_a_repeated_audit_adds_nothing(
    before: LeakageGuard,
    once: LeakageGuard,
    twice: LeakageGuard,
    document: DocumentId,
    clean: Seq<u32>,
    corpus: NeighbourCorpus,
    filter: NgramOverlapFilter,
    added: nat,
)
    requires
        once.excluded(document) == before.excluded(document).union(
            LeakageGuard::overlapping(corpus, clean, filter, corpus@.documents.len()),
        ),
        twice.excluded(document) == once.excluded(document).union(
            LeakageGuard::overlapping(corpus, clean, filter, corpus@.documents.len()),
        ),
        twice.excluded(document).len() == once.excluded(document).len() + added,
    ensures
        added == 0,
        twice.excluded(document) == once.excluded(document),
{
    assert(twice.excluded(document) =~= once.excluded(document));
}

/// An audit excludes what overlaps the document: the neighbours among the
/// corpus whose tokens the filter rejects, and no others.
pub proof fn law_an_audit_excludes_what_the_filter_rejects(
    corpus: NeighbourCorpus,
    clean: Seq<u32>,
    filter: NgramOverlapFilter,
    id: u32,
)
    requires
        corpus.wf(),
        corpus@.documents.len() <= u32::MAX,
    ensures
        LeakageGuard::overlapping(corpus, clean, filter, corpus@.documents.len()).contains(id)
            <==> id < corpus@.documents.len() && filter.too_close(
            super::corpus::slot(corpus@.tokens, id as int, corpus@.r as int),
            clean,
        ),
{
    lemma_overlapping(corpus, clean, filter, corpus@.documents.len(), id);
}

proof fn lemma_overlapping(
    corpus: NeighbourCorpus,
    clean: Seq<u32>,
    filter: NgramOverlapFilter,
    upto: nat,
    id: u32,
)
    requires
        corpus.wf(),
        upto <= corpus@.documents.len() <= u32::MAX,
    ensures
        LeakageGuard::overlapping(corpus, clean, filter, upto).contains(id) <==> id < upto
            && filter.too_close(
            super::corpus::slot(corpus@.tokens, id as int, corpus@.r as int),
            clean,
        ),
    decreases upto,
{
    if upto > 0 {
        let at = (upto - 1) as nat;
        lemma_overlapping(corpus, clean, filter, at, id);
        let (n, r) = (corpus@.documents.len() as int, corpus@.r as int);
        assert(at * r + r <= n * r) by (nonlinear_arith)
            requires
                at + 1 <= n,
                r >= 0,
        ;
        assert(super::corpus::id_of(at).0 == at);
    }
}

/// An audit only ever takes neighbours away.
pub proof fn law_audit_only_excludes(
    before: LeakageGuard,
    after: LeakageGuard,
    document: DocumentId,
    candidate: NeighbourId,
    corpus: NeighbourCorpus,
    more: Set<u32>,
)
    requires
        after.by_source() == before.by_source(),
        after.excluded(document) == before.excluded(document).union(more),
        after.allows(document, candidate, corpus),
    ensures
        before.allows(document, candidate, corpus),
{
}

/// What the filter weighs is the neighbour: of the distinct `n`-grams of the
/// neighbour, the share that the document holds too, whatever else the document
/// holds. It rejects where that share exceeds the limit, and a neighbour without
/// an `n`-gram is never rejected.
pub proof fn law_the_filter_weighs_the_neighbours_grams(
    filter: NgramOverlapFilter,
    neighbour: Seq<u32>,
    document: Seq<u32>,
    own: Set<Seq<u32>>,
    shared: Set<Seq<u32>>,
)
    requires
        filter.n() > 0,
        forall|gram: Seq<u32>| #[trigger]
            own.contains(gram) <==> gram.len() == filter.n() && exists|i: int|
                0 <= i <= neighbour.len() - filter.n() && #[trigger] neighbour.subrange(
                    i,
                    i + filter.n(),
                ) == gram,
        forall|gram: Seq<u32>| #[trigger]
            shared.contains(gram) <==> own.contains(gram) && exists|i: int|
                0 <= i <= document.len() - filter.n() && #[trigger] document.subrange(
                    i,
                    i + filter.n(),
                ) == gram,
    ensures
        neighbour.len() >= filter.n() ==> (filter.too_close(neighbour, document)
            <==> filter.limit().is_less(
            (Binary32 { bits: Binary32::ratio_bits(shared.len(), own.len()) }),
        )),
        neighbour.len() < filter.n() ==> (filter.too_close(neighbour, document)
            <==> filter.limit().is_less((Binary32 { bits: 0 }))),
{
    let n = filter.n() as int;
    if neighbour.len() >= n {
        let mine = all_grams(neighbour, n);
        let theirs = all_grams(document, n);
        assert forall|gram: Seq<u32>| #[trigger] mine.contains(gram) <==> own.contains(gram) by {
            lemma_grams(neighbour, n, neighbour.len() - n + 1, gram);
            if own.contains(gram) {
                let i = choose|i: int|
                    0 <= i <= neighbour.len() - n && #[trigger] neighbour.subrange(i, i + n)
                        == gram;
                assert(0 <= i < neighbour.len() - n + 1);
            }
            if mine.contains(gram) {
                let i = choose|i: int|
                    0 <= i < neighbour.len() - n + 1 && #[trigger] neighbour.subrange(i, i + n)
                        == gram;
                assert(gram.len() == n);
                assert(0 <= i <= neighbour.len() - n);
            }
        }
        assert(mine =~= own);
        assert forall|gram: Seq<u32>| #[trigger]
            mine.intersect(theirs).contains(gram) <==> shared.contains(gram) by {
            lemma_grams(document, n, document.len() - n + 1, gram);
            if shared.contains(gram) {
                let i = choose|i: int|
                    0 <= i <= document.len() - n && #[trigger] document.subrange(i, i + n) == gram;
                assert(0 <= i < document.len() - n + 1);
            }
            if mine.intersect(theirs).contains(gram) {
                let i = choose|i: int|
                    0 <= i < document.len() - n + 1 && #[trigger] document.subrange(i, i + n)
                        == gram;
                assert(0 <= i <= document.len() - n);
            }
        }
        assert(mine.intersect(theirs) =~= shared);
    }
}

/// A copy is too close: a neighbour of at least `n` tokens that stands in the
/// document word for word is rejected under every limit below one, however long
/// the document is.
pub proof fn law_a_copied_neighbour_is_rejected(
    filter: NgramOverlapFilter,
    neighbour: Seq<u32>,
    document: Seq<u32>,
    at: int,
)
    requires
        0 < filter.n() <= neighbour.len() <= usize::MAX,
        filter.limit().is_less((Binary32 { bits: crate::binary32::ONE_BITS })),
        0 <= at,
        at + neighbour.len() <= document.len(),
        forall|i: int| 0 <= i < neighbour.len() ==> neighbour[i] == #[trigger] document[at + i],
    ensures
        filter.too_close(neighbour, document),
{
    let n = filter.n() as int;
    let mine = all_grams(neighbour, n);
    let theirs = all_grams(document, n);
    lemma_grams(neighbour, n, neighbour.len() - n + 1, Seq::empty());
    assert forall|gram: Seq<u32>| #[trigger] mine.contains(gram) implies theirs.contains(gram) by {
        lemma_grams(neighbour, n, neighbour.len() - n + 1, gram);
        lemma_grams(document, n, document.len() - n + 1, gram);
        let i = choose|i: int|
            0 <= i < neighbour.len() - n + 1 && #[trigger] neighbour.subrange(i, i + n) == gram;
        assert forall|p: int| 0 <= p < n implies #[trigger] neighbour.subrange(i, i + n)[p]
            == document.subrange(at + i, at + i + n)[p] by {
            assert(neighbour[i + p] == document[at + (i + p)]);
        }
        assert(document.subrange(at + i, at + i + n) =~= gram);
        assert(0 <= at + i < document.len() - n + 1);
    }
    assert(mine.intersect(theirs) =~= mine);
    crate::arithmetic::lemma_ratio_bounds(mine.len(), mine.len());
}

/// A stranger is kept: a neighbour that shares no `n` tokens in a row with the
/// document is not rejected.
pub proof fn law_a_neighbour_without_a_shared_gram_is_kept(
    filter: NgramOverlapFilter,
    neighbour: Seq<u32>,
    document: Seq<u32>,
)
    requires
        filter.n() > 0,
        neighbour.len() <= usize::MAX,
        crate::schedule::in_unit_interval(filter.limit()),
        forall|i: int, j: int|
            0 <= i <= neighbour.len() - filter.n() && 0 <= j <= document.len() - filter.n()
                ==> #[trigger] neighbour.subrange(i, i + filter.n()) != #[trigger] document.subrange(
                j,
                j + filter.n(),
            ),
    ensures
        !filter.too_close(neighbour, document),
{
    let n = filter.n() as int;
    let zero = Binary32 { bits: 0 };
    assert(zero.word() == 0);
    assert(crate::binary32::magnitude(0) == 0) by (nonlinear_arith);
    assert(zero.units() == 0);
    assert(!filter.limit().is_less(zero));
    if neighbour.len() >= n {
        let mine = all_grams(neighbour, n);
        let theirs = all_grams(document, n);
        lemma_grams(neighbour, n, neighbour.len() - n + 1, Seq::empty());
        assert forall|gram: Seq<u32>| !(#[trigger] mine.intersect(theirs).contains(gram)) by {
            lemma_grams(neighbour, n, neighbour.len() - n + 1, gram);
            lemma_grams(document, n, document.len() - n + 1, gram);
            if mine.contains(gram) && theirs.contains(gram) {
                let i = choose|i: int|
                    0 <= i < neighbour.len() - n + 1 && #[trigger] neighbour.subrange(i, i + n)
                        == gram;
                let j = choose|j: int|
                    0 <= j < document.len() - n + 1 && #[trigger] document.subrange(j, j + n)
                        == gram;
                assert(neighbour.subrange(i, i + filter.n()) != document.subrange(
                    j,
                    j + filter.n(),
                ));
            }
        }
        assert(mine.intersect(theirs) =~= Set::empty());
        crate::arithmetic::lemma_ratio_bounds(0, mine.len());
    }
}

/// An audited document does not retrieve a copy of itself: once it is audited,
/// no neighbour that stands in it word for word is allowed, whatever document
/// that neighbour is filed under.
pub proof fn law_an_audited_copy_is_not_retrieved(
    before: LeakageGuard,
    after: LeakageGuard,
    document: DocumentId,
    clean: Seq<u32>,
    corpus: NeighbourCorpus,
    filter: NgramOverlapFilter,
    id: u32,
    at: int,
)
    requires
        corpus.wf(),
        corpus@.documents.len() <= u32::MAX,
        after.excluded(document) == before.excluded(document).union(
            LeakageGuard::overlapping(corpus, clean, filter, corpus@.documents.len()),
        ),
        id < corpus@.documents.len(),
        0 < filter.n() <= corpus@.r <= usize::MAX,
        filter.limit().is_less((Binary32 { bits: crate::binary32::ONE_BITS })),
        0 <= at,
        at + corpus@.r <= clean.len(),
        forall|i: int|
            0 <= i < corpus@.r ==> corpus@.tokens[id * corpus@.r + i] == #[trigger] clean[at + i],
    ensures
        !after.allows(document, NeighbourId(id), corpus),
{
    let r = corpus@.r as int;
    let held = corpus@.documents.len() as int;
    assert(0 <= id * r && id * r + r <= held * r) by (nonlinear_arith)
        requires
            0 <= id < held,
            r >= 0,
    ;
    let neighbour = super::corpus::slot(corpus@.tokens, id as int, r);
    law_a_copied_neighbour_is_rejected(filter, neighbour, clean, at);
    law_an_audit_excludes_what_the_filter_rejects(corpus, clean, filter, id);
}

} // verus!
