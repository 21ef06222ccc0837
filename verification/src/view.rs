//! The noised view, and the wall between it and the clean sequence.
//!
//! The retriever may only see what the denoiser sees. Query the clean
//! sequence during training and the retrieved neighbours correlate with
//! exactly the tokens that were masked; the loss collapses into
//! copy-from-neighbour and the experiment measures nothing.
//!
//! This module enforces the rule in two layers:
//!
//! 1. [`CleanSequence`] exposes no method that yields queries. The only type
//!    the query builder accepts is [`NoisedView`].
//! 2. Every [`NoisedView`] carries a [`ViewId`], and everything derived from
//!    it carries that id forward. The denoiser checks that the neighbours it
//!    was handed came from the view it is denoising, so retrieving from a
//!    *different, cleaner* view of the same sequence is caught too.
use crate::binary32::Binary32;
use crate::schedule::NoiseLevel;
use crate::text::decimal;
use vstd::prelude::*;
use vstd::string::*;

verus! {

/// Identifies one noised view.
///
/// Ids are drawn in order from an [`IdSource`], so an id match means the two
/// values really came from the same masking event, not merely from views
/// that happen to agree on `t`.
#[derive(Clone, Copy, Debug, PartialEq, Eq, Structural, Hash, PartialOrd, Ord)]
pub struct ViewId {
    raw: u64,
}

/// Identifies one clean sequence.
#[derive(Clone, Copy, Debug, PartialEq, Eq, Structural, Hash, PartialOrd, Ord)]
pub struct SequenceId {
    raw: u64,
}

impl ViewId {
    /// The raw id.
    pub closed spec fn value(self) -> u64 {
        self.raw
    }

    /// The raw id, for logging.
    pub fn get(self) -> (raw: u64)
        ensures
            raw == self.value(),
    {
        self.raw
    }
}

impl SequenceId {
    /// The raw id.
    pub closed spec fn value(self) -> u64 {
        self.raw
    }

    /// The raw id, for logging.
    pub fn get(self) -> (raw: u64)
        ensures
            raw == self.value(),
    {
        self.raw
    }
}

/// Hands out view and sequence ids.
#[derive(Debug)]
pub struct IdSource {
    views: u64,
    sequences: u64,
}

/// The count after `count`, wrapping round at the end of the machine word.
pub open spec fn next_id(count: u64) -> u64 {
    if count == u64::MAX {
        0
    } else {
        (count + 1) as u64
    }
}

impl IdSource {
    /// The view id that comes next.
    pub closed spec fn views(self) -> u64 {
        self.views
    }

    /// The sequence id that comes next.
    pub closed spec fn sequences(self) -> u64 {
        self.sequences
    }

    /// A source that has handed out nothing.
    ///
    /// Two sources hand out the same ids, so that an id tells views apart only
    /// among those of one source: a program makes one and passes it along.
    pub fn new() -> (ids: Self)
        ensures
            ids.views() == 0,
            ids.sequences() == 0,
    {
        IdSource { views: 0, sequences: 0 }
    }

    /// Draw the next view id.
    pub fn next_view(&mut self) -> (id: ViewId)
        ensures
            id.value() == old(self).views(),
            final(self).views() == next_id(old(self).views()),
            final(self).sequences() == old(self).sequences(),
    {
        let raw: u64 = self.views;
        self.views = raw.wrapping_add(1);
        ViewId { raw }
    }

    /// Draw the next sequence id.
    pub fn next_sequence(&mut self) -> (id: SequenceId)
        ensures
            id.value() == old(self).sequences(),
            final(self).sequences() == next_id(old(self).sequences()),
            final(self).views() == old(self).views(),
    {
        let raw: u64 = self.sequences;
        self.sequences = raw.wrapping_add(1);
        SequenceId { raw }
    }
}

/// The counter after `draws` draws.
pub open spec fn after_draws(count: u64, draws: nat) -> u64
    decreases draws,
{
    if draws == 0 {
        count
    } else {
        next_id(after_draws(count, (draws - 1) as nat))
    }
}

/// `after` is what `before` is after so many draws of view ids and of sequence
/// ids.
pub open spec fn drawn(before: IdSource, after: IdSource, views: nat, sequences: nat) -> bool {
    &&& after.views() == after_draws(before.views(), views)
    &&& after.sequences() == after_draws(before.sequences(), sequences)
}

/// Draws that follow one another add up.
pub proof fn lemma_draws_add(count: u64, a: nat, b: nat)
    ensures
        after_draws(after_draws(count, a), b) == after_draws(count, a + b),
    decreases b,
{
    if b > 0 {
        lemma_draws_add(count, a, (b - 1) as nat);
    }
}

/// One draw.
pub proof fn lemma_one_draw(count: u64)
    ensures
        after_draws(count, 0) == count,
        after_draws(count, 1) == next_id(count),
{
    reveal_with_fuel(after_draws, 2);
}

/// Two draws from one source never give the same id, as long as fewer than
/// `2^64` draws lie between them.
pub proof fn law_draws_are_distinct(count: u64, i: nat, j: nat)
    requires
        i < j,
        j - i <= u64::MAX,
    ensures
        after_draws(count, i) != after_draws(count, j),
{
    lemma_after_draws(count, i);
    lemma_after_draws(count, j);
    let m: int = 0x1_0000_0000_0000_0000;
    let a = (count + i) / m;
    let b = (count + j) / m;
    assert(count + i == m * a + (count + i) % m);
    assert(count + j == m * b + (count + j) % m);
}

proof fn lemma_after_draws(count: u64, draws: nat)
    ensures
        after_draws(count, draws) == (count + draws) % 0x1_0000_0000_0000_0000,
    decreases draws,
{
    if draws > 0 {
        lemma_after_draws(count, (draws - 1) as nat);
    }
}

/// The token id standing in for a masked position.
#[derive(Clone, Copy, Debug, PartialEq, Eq, Structural)]
pub struct MaskToken(pub u32);

/// The clean sequence, `x_0`.
///
/// Deliberately inert. It is a denoising *target* and nothing else: there is
/// no accessor here that hands its tokens to the retrieval path. To read it
/// for a loss, use [`CleanSequence::targets`].
#[derive(Clone, Debug, PartialEq, Eq)]
pub struct CleanSequence {
    id: SequenceId,
    tokens: Vec<u32>,
}

impl View for CleanSequence {
    type V = Seq<u32>;

    closed spec fn view(&self) -> Seq<u32> {
        self.tokens@
    }
}

impl CleanSequence {
    /// Which sequence this is.
    pub closed spec fn identity(self) -> SequenceId {
        self.id
    }

    /// Wrap a clean token sequence.
    pub fn new(tokens: Vec<u32>, ids: &mut IdSource) -> (clean: Self)
        ensures
            clean@ == tokens@,
            clean.identity().value() == old(ids).sequences(),
            final(ids).sequences() == next_id(old(ids).sequences()),
            final(ids).views() == old(ids).views(),
    {
        let id: SequenceId = ids.next_sequence();
        CleanSequence { id, tokens }
    }

    /// This sequence's identity.
    pub fn id(&self) -> (id: SequenceId)
        ensures
            id == self.identity(),
    {
        self.id
    }

    /// Sequence length.
    pub fn len(&self) -> (n: usize)
        ensures
            n == self@.len(),
    {
        self.tokens.len()
    }

    /// Whether the sequence is empty.
    pub fn is_empty(&self) -> (b: bool)
        ensures
            b == (self@.len() == 0),
    {
        self.tokens.len() == 0
    }

    /// The denoising targets.
    ///
    /// The one way out of this type, and it exists for the loss. Do not route
    /// the result into query construction: that is precisely the failure
    /// this module is built to prevent.
    pub fn targets(&self) -> (tokens: &[u32])
        ensures
            tokens@ == self@,
    {
        self.tokens.as_slice()
    }

    /// Mask this sequence at noise level `t`, producing the view the denoiser
    /// and the retriever will *both* read.
    ///
    /// `should_mask` decides each position, so the caller owns the corruption
    /// process (uniform, block, span) while this constructor owns the
    /// bookkeeping that keeps the two consumers in sync.
    pub fn mask_with<F: FnMut(usize) -> bool>(
        &self,
        t: NoiseLevel,
        mask_token: MaskToken,
        mut should_mask: F,
        ids: &mut IdSource,
    ) -> (view: NoisedView)
        requires
            forall|i: usize| i < self@.len() ==> call_requires(should_mask, (i,)),
        ensures
            view.wf(),
            view@.masked.len() == self@.len(),
            forall|i: usize|
                i < self@.len() ==> call_ensures(
                    should_mask,
                    (i,),
                    #[trigger] view@.masked[i as int],
                ),
            view@.tokens == masked_tokens(self@, view@.masked, mask_token),
            view@.t == t,
            view@.mask_token == mask_token,
            view@.source == Some(self.identity()),
            view@.id.value() == old(ids).views(),
            final(ids).views() == next_id(old(ids).views()),
            final(ids).sequences() == old(ids).sequences(),
    {
        let n: usize = self.tokens.len();
        let mut masked: Vec<bool> = Vec::new();
        let mut i: usize = 0;
        let ghost rule = should_mask;
        while i < n
            invariant
                i <= n,
                n == self@.len(),
                masked.len() == i,
                should_mask == rule,
                forall|j: usize| j < n ==> call_requires(rule, (j,)),
                forall|j: usize| j < i ==> call_ensures(rule, (j,), #[trigger] masked@[j as int]),
            decreases n - i,
        {
            let b: bool = should_mask(i);
            masked.push(b);
            i = i + 1;
        }
        self.mask_at(t, mask_token, masked, ids)
    }

    /// Mask exactly the positions flagged in `masked`.
    pub fn mask_at(
        &self,
        t: NoiseLevel,
        mask_token: MaskToken,
        masked: Vec<bool>,
        ids: &mut IdSource,
    ) -> (view: NoisedView)
        requires
            masked@.len() == self@.len(),
        ensures
            view.wf(),
            view@.masked == masked@,
            view@.tokens == masked_tokens(self@, masked@, mask_token),
            view@.t == t,
            view@.mask_token == mask_token,
            view@.source == Some(self.identity()),
            view@.id.value() == old(ids).views(),
            final(ids).views() == next_id(old(ids).views()),
            final(ids).sequences() == old(ids).sequences(),
    {
        let mut tokens: Vec<u32> = Vec::new();
        let mut i: usize = 0;
        while i < self.tokens.len()
            invariant
                i <= self.tokens.len(),
                masked@.len() == self.tokens.len(),
                tokens@ == masked_tokens(
                    self.tokens@.take(i as int),
                    masked@.take(i as int),
                    mask_token,
                ),
            decreases self.tokens.len() - i,
        {
            if masked[i] {
                tokens.push(mask_token.0);
            } else {
                tokens.push(self.tokens[i]);
            }
            i = i + 1;
        }
        proof {
            assert(self.tokens@.take(i as int) =~= self@);
            assert(masked@.take(i as int) =~= masked@);
        }
        let id: ViewId = ids.next_view();
        NoisedView { id, source: Some(self.id), tokens, masked, t, mask_token }
    }
}

/// The tokens of `clean` with the mask token at the flagged positions.
pub open spec fn masked_tokens(clean: Seq<u32>, masked: Seq<bool>, mask_token: MaskToken) -> Seq<
    u32,
> {
    Seq::new(
        clean.len(),
        |i: int|
            if masked[i] {
                mask_token.0
            } else {
                clean[i]
            },
    )
}

/// The partially masked view at noise level `t`, `x_t`.
///
/// This is the *only* thing the retriever is allowed to read. It is also what
/// the denoiser reads, which is the whole point: the two see the same thing
/// by construction rather than by discipline.
#[derive(Clone, Debug, PartialEq)]
pub struct NoisedView {
    id: ViewId,
    source: Option<SequenceId>,
    tokens: Vec<u32>,
    masked: Vec<bool>,
    t: NoiseLevel,
    mask_token: MaskToken,
}

/// What a noised view holds.
pub struct ViewState {
    /// The view's identity.
    pub id: ViewId,
    /// The clean sequence the view was masked from, if there was one.
    pub source: Option<SequenceId>,
    /// The visible tokens.
    pub tokens: Seq<u32>,
    /// Per-position mask flags.
    pub masked: Seq<bool>,
    /// The noise level.
    pub t: NoiseLevel,
    /// The mask token.
    pub mask_token: MaskToken,
}

impl View for NoisedView {
    type V = ViewState;

    closed spec fn view(&self) -> ViewState {
        ViewState {
            id: self.id,
            source: self.source,
            tokens: self.tokens@,
            masked: self.masked@,
            t: self.t,
            mask_token: self.mask_token,
        }
    }
}

/// `tokens` with each listed token written at its position, in order.
pub open spec fn write_tokens(tokens: Seq<u32>, positions: Seq<(usize, u32)>) -> Seq<u32>
    decreases positions.len(),
{
    if positions.len() == 0 {
        tokens
    } else {
        let (pos, tok) = positions.last();
        write_tokens(tokens, positions.drop_last()).update(pos as int, tok)
    }
}

/// `masked` with the flag cleared at each listed position.
pub open spec fn clear_flags(masked: Seq<bool>, positions: Seq<(usize, u32)>) -> Seq<bool>
    decreases positions.len(),
{
    if positions.len() == 0 {
        masked
    } else {
        let (pos, tok) = positions.last();
        clear_flags(masked, positions.drop_last()).update(pos as int, false)
    }
}

/// The share of set flags as a number, zero where there are none at all.
pub open spec fn rate_bits(flags: Seq<bool>) -> u32 {
    if flags.len() == 0 {
        0
    } else {
        Binary32::ratio_bits(count_true(flags), flags.len())
    }
}

/// The share of set flags as a number, zero where there are none at all.
pub fn rate(flags: &[bool]) -> (x: Binary32)
    ensures
        x.bits == rate_bits(flags@),
{
    if flags.len() == 0 {
        Binary32::from_bits(0)
    } else {
        Binary32::ratio(count_set(flags) as u64, flags.len() as u64)
    }
}

impl NoisedView {
    /// There is one flag per token, and a flagged position shows the mask
    /// token.
    pub open spec fn wf(self) -> bool {
        &&& self@.masked.len() == self@.tokens.len()
        &&& self@.tokens.len() <= usize::MAX
        &&& forall|i: int|
            0 <= i < self@.tokens.len() && #[trigger] self@.masked[i] ==> self@.tokens[i]
                == self@.mask_token.0
    }

    /// Build a view directly from already-masked tokens.
    ///
    /// For inference, where there is no clean sequence to mask: sampling
    /// starts from an all-`[MASK]` canvas and reveals tokens into it.
    pub fn from_tokens(
        tokens: Vec<u32>,
        t: NoiseLevel,
        mask_token: MaskToken,
        ids: &mut IdSource,
    ) -> (view: Self)
        ensures
            view.wf(),
            view@.tokens == tokens@,
            view@.masked == Seq::new(tokens@.len(), |i: int| tokens@[i] == mask_token.0),
            view@.t == t,
            view@.mask_token == mask_token,
            view@.source is None,
            view@.id.value() == old(ids).views(),
            final(ids).views() == next_id(old(ids).views()),
            final(ids).sequences() == old(ids).sequences(),
    {
        let mut masked: Vec<bool> = Vec::new();
        let mut i: usize = 0;
        while i < tokens.len()
            invariant
                i <= tokens.len(),
                masked@ == Seq::new(i as nat, |j: int| tokens@[j] == mask_token.0),
            decreases tokens.len() - i,
        {
            masked.push(tokens[i] == mask_token.0);
            i = i + 1;
        }
        let id: ViewId = ids.next_view();
        NoisedView { id, source: None, tokens, masked, t, mask_token }
    }

    /// An all-`[MASK]` canvas of length `n`, the starting point for sampling.
    pub fn all_masked(n: usize, mask_token: MaskToken, ids: &mut IdSource) -> (view: Self)
        ensures
            view.wf(),
            view@.tokens == Seq::new(n as nat, |i: int| mask_token.0),
            view@.masked == Seq::new(n as nat, |i: int| true),
            view@.t.value().bits == crate::binary32::ONE_BITS,
            view@.mask_token == mask_token,
            view@.source is None,
            view@.id.value() == old(ids).views(),
            final(ids).views() == next_id(old(ids).views()),
            final(ids).sequences() == old(ids).sequences(),
    {
        let tokens: Vec<u32> = vec![mask_token.0; n];
        let masked: Vec<bool> = vec![true; n];
        proof {
            assert(tokens@ =~= Seq::new(n as nat, |i: int| mask_token.0));
            assert(masked@ =~= Seq::new(n as nat, |i: int| true));
        }
        let id: ViewId = ids.next_view();
        NoisedView { id, source: None, tokens, masked, t: NoiseLevel::masked(), mask_token }
    }

    /// This view's identity.
    pub fn id(&self) -> (id: ViewId)
        ensures
            id == self@.id,
    {
        self.id
    }

    /// The clean sequence this view was masked from, if there was one.
    pub fn source(&self) -> (source: Option<SequenceId>)
        ensures
            source == self@.source,
    {
        self.source
    }

    /// The visible tokens, masked positions included as `[MASK]`.
    pub fn tokens(&self) -> (tokens: &[u32])
        ensures
            tokens@ == self@.tokens,
    {
        self.tokens.as_slice()
    }

    /// Per-position mask flags.
    pub fn masked(&self) -> (masked: &[bool])
        ensures
            masked@ == self@.masked,
    {
        self.masked.as_slice()
    }

    /// The noise level this view was produced at.
    pub fn noise_level(&self) -> (t: NoiseLevel)
        ensures
            t == self@.t,
    {
        self.t
    }

    /// The mask token id.
    pub fn mask_token(&self) -> (mask_token: MaskToken)
        ensures
            mask_token == self@.mask_token,
    {
        self.mask_token
    }

    /// Sequence length.
    pub fn len(&self) -> (n: usize)
        ensures
            n == self@.tokens.len(),
    {
        self.tokens.len()
    }

    /// Whether the view is empty.
    pub fn is_empty(&self) -> (b: bool)
        ensures
            b == (self@.tokens.len() == 0),
    {
        self.tokens.len() == 0
    }

    /// Count of masked positions.
    pub fn num_masked(&self) -> (count: usize)
        ensures
            count == count_true(self@.masked),
            count <= self@.masked.len(),
    {
        count_set(self.masked.as_slice())
    }

    /// Fraction of positions that are masked.
    ///
    /// This is the *empirical* mask rate, which is not the same number as
    /// `t`: `t` parameterises the corruption process, this counts what the
    /// process actually did.
    pub fn mask_rate(&self) -> (x: Binary32)
        ensures
            x.bits == rate_bits(self@.masked),
    {
        rate(self.masked.as_slice())
    }

    /// Reveal each listed position as its token, as one denoising step does.
    ///
    /// Revealing produces a *new* view with a new [`ViewId`]: the sequence
    /// has changed, so neighbours retrieved against the previous view are now
    /// stale. Whether that staleness is acceptable is the refresh schedule's
    /// call, but it must be a decision, which is why this does not mutate in
    /// place.
    pub fn reveal_at(
        &self,
        positions: &[(usize, u32)],
        t: NoiseLevel,
        ids: &mut IdSource,
    ) -> (view: Self)
        requires
            self.wf(),
            forall|i: int| 0 <= i < positions@.len() ==> (#[trigger] positions@[i]).0 < self@.tokens.len(),
        ensures
            view.wf(),
            view@.tokens == write_tokens(self@.tokens, positions@),
            view@.masked == clear_flags(self@.masked, positions@),
            view@.t == t,
            view@.mask_token == self@.mask_token,
            view@.source == self@.source,
            view@.id.value() == old(ids).views(),
            final(ids).views() == next_id(old(ids).views()),
            final(ids).sequences() == old(ids).sequences(),
    {
        let mut tokens: Vec<u32> = self.tokens.clone();
        let mut masked: Vec<bool> = self.masked.clone();
        proof {
            assert(tokens@ =~= self.tokens@);
            assert(masked@ =~= self.masked@);
        }
        let mut i: usize = 0;
        while i < positions.len()
            invariant
                i <= positions.len(),
                self.wf(),
                forall|j: int|
                    0 <= j < positions@.len() ==> (#[trigger] positions@[j]).0 < self@.tokens.len(),
                tokens@.len() == self@.tokens.len(),
                masked@.len() == self@.tokens.len(),
                tokens@ == write_tokens(self@.tokens, positions@.take(i as int)),
                masked@ == clear_flags(self@.masked, positions@.take(i as int)),
                forall|j: int|
                    0 <= j < tokens@.len() && #[trigger] masked@[j] ==> tokens@[j]
                        == self@.mask_token.0,
            decreases positions.len() - i,
        {
            let (pos, tok) = positions[i];
            proof {
                assert(positions@[i as int].0 < self@.tokens.len());
                assert(positions@.take(i + 1).drop_last() =~= positions@.take(i as int));
            }
            tokens.set(pos, tok);
            masked.set(pos, false);
            i = i + 1;
        }
        proof {
            assert(positions@.take(i as int) =~= positions@);
        }
        let id: ViewId = ids.next_view();
        NoisedView { id, source: self.source, tokens, masked, t, mask_token: self.mask_token }
    }
}

/// A value derived from one specific [`NoisedView`].
///
/// Carrying the id forward is what lets the denoiser reject neighbours that
/// were retrieved against a different view.
pub trait DerivedFromView {
    /// The view this value was derived from.
    closed spec fn origin(&self) -> ViewId {
        arbitrary()
    }

    /// The view this value was derived from.
    fn view_id(&self) -> (id: ViewId)
        ensures
            id == self.origin(),
    ;
}

/// Raised when a value derived from one view is used to denoise another.
#[derive(Clone, Copy, Debug, PartialEq, Eq, Structural)]
pub struct ViewMismatch {
    /// The view the denoiser is working on.
    pub denoising: ViewId,
    /// The view the offending value came from.
    pub derived_from: ViewId,
}

impl ViewMismatch {
    /// What went wrong, in words.
    pub fn message(&self) -> (s: String)
        ensures
            s@ == "retrieval came from view "@ + crate::text::decimal_chars(
                self.derived_from.value() as nat,
            ) + " but the denoiser is on view "@ + crate::text::decimal_chars(
                self.denoising.value() as nat,
            ) + ": the retriever must see exactly what the denoiser sees"@,
    {
        let mut s: String = String::from_str("retrieval came from view ");
        s.append(decimal(self.derived_from.get()).as_str());
        s.append(" but the denoiser is on view ");
        s.append(decimal(self.denoising.get()).as_str());
        s.append(": the retriever must see exactly what the denoiser sees");
        s
    }
}

/// Check that `derived` came from `view`.
pub fn check_same_view<D: DerivedFromView>(view: &NoisedView, derived: &D) -> (result: Result<
    (),
    ViewMismatch,
>)
    ensures
        result is Ok <==> derived.origin() == view@.id,
        result is Err ==> result->Err_0.denoising == view@.id && result->Err_0.derived_from
            == derived.origin(),
{
    let id: ViewId = derived.view_id();
    if id == view.id() {
        Ok(())
    } else {
        Err(ViewMismatch { denoising: view.id(), derived_from: id })
    }
}

/// Two views drawn from one source have different identities, however alike
/// they are: what carries the identity of one is not taken for the other's.
pub proof fn law_views_of_one_source_differ(
    source: IdSource,
    a: NoisedView,
    i: nat,
    b: NoisedView,
    j: nat,
)
    requires
        i < j,
        j - i <= u64::MAX,
        a@.id.value() == after_draws(source.views(), i),
        b@.id.value() == after_draws(source.views(), j),
    ensures
        a@.id != b@.id,
{
    law_draws_are_distinct(source.views(), i, j);
}

/// Revealing never hides a position that was visible.
pub proof fn law_reveal_never_masks(masked: Seq<bool>, positions: Seq<(usize, u32)>, i: int)
    requires
        0 <= i < masked.len(),
        !masked[i],
        forall|j: int| 0 <= j < positions.len() ==> (#[trigger] positions[j]).0 < masked.len(),
    ensures
        clear_flags(masked, positions).len() == masked.len(),
        !clear_flags(masked, positions)[i],
    decreases positions.len(),
{
    if positions.len() > 0 {
        assert(positions.last() == positions[positions.len() - 1]);
        assert forall|j: int| 0 <= j < positions.drop_last().len() implies (
        #[trigger] positions.drop_last()[j]).0 < masked.len() by {
            assert(positions.drop_last()[j] == positions[j]);
        }
        law_reveal_never_masks(masked, positions.drop_last(), i);
    }
}

/// Revealing leaves every position it does not list as it was.
pub proof fn law_reveal_leaves_others(
    tokens: Seq<u32>,
    masked: Seq<bool>,
    positions: Seq<(usize, u32)>,
    i: int,
)
    requires
        0 <= i < tokens.len(),
        masked.len() == tokens.len(),
        forall|j: int|
            0 <= j < positions.len() ==> (#[trigger] positions[j]).0 != i && positions[j].0
                < tokens.len(),
    ensures
        write_tokens(tokens, positions).len() == tokens.len(),
        write_tokens(tokens, positions)[i] == tokens[i],
        clear_flags(masked, positions).len() == masked.len(),
        clear_flags(masked, positions)[i] == masked[i],
    decreases positions.len(),
{
    if positions.len() > 0 {
        assert(positions.last() == positions[positions.len() - 1]);
        assert forall|j: int| 0 <= j < positions.drop_last().len() implies (
        #[trigger] positions.drop_last()[j]).0 != i && positions.drop_last()[j].0
            < tokens.len() by {
            assert(positions.drop_last()[j] == positions[j]);
        }
        law_reveal_leaves_others(tokens, masked, positions.drop_last(), i);
    }
}

/// How many of `flags` are set.
pub open spec fn count_true(flags: Seq<bool>) -> nat
    decreases flags.len(),
{
    if flags.len() == 0 {
        0
    } else {
        count_true(flags.drop_last()) + (if flags.last() {
            1nat
        } else {
            0nat
        })
    }
}

/// How many of `flags` are set.
pub fn count_set(flags: &[bool]) -> (count: usize)
    ensures
        count == count_true(flags@),
        count <= flags@.len(),
{
    let mut count: usize = 0;
    let mut i: usize = 0;
    while i < flags.len()
        invariant
            i <= flags.len(),
            count <= i,
            count == count_true(flags@.take(i as int)),
        decreases flags.len() - i,
    {
        proof {
            assert(flags@.take(i + 1).drop_last() =~= flags@.take(i as int));
        }
        if flags[i] {
            count = count + 1;
        }
        i = i + 1;
    }
    proof {
        assert(flags@.take(i as int) =~= flags@);
    }
    count
}

/// A count of flags stays within their number.
pub proof fn lemma_count_true_bound(flags: Seq<bool>)
    ensures
        count_true(flags) <= flags.len(),
    decreases flags.len(),
{
    if flags.len() > 0 {
        lemma_count_true_bound(flags.drop_last());
    }
}

/// Setting or clearing one flag changes the count by that flag.
pub proof fn lemma_count_true_update(flags: Seq<bool>, i: int, b: bool)
    requires
        0 <= i < flags.len(),
    ensures
        count_true(flags.update(i, b)) + (if flags[i] {
            1int
        } else {
            0int
        }) == count_true(flags) + (if b {
            1int
        } else {
            0int
        }),
    decreases flags.len(),
{
    let next = flags.update(i, b);
    if i == flags.len() - 1 {
        assert(next.drop_last() =~= flags.drop_last());
    } else {
        assert(next.drop_last() =~= flags.drop_last().update(i, b));
        lemma_count_true_update(flags.drop_last(), i, b);
    }
}

/// A mask rate is a fraction: none where nothing is masked, and one where
/// everything is.
pub proof fn law_a_mask_rate_is_a_fraction(flags: Seq<bool>)
    requires
        flags.len() <= usize::MAX,
    ensures
        rate_bits(flags) <= crate::binary32::ONE_BITS,
        (forall|i: int| 0 <= i < flags.len() ==> !flags[i]) ==> rate_bits(flags) == 0,
        flags.len() > 0 && (forall|i: int| 0 <= i < flags.len() ==> flags[i]) ==> rate_bits(flags)
            == crate::binary32::ONE_BITS,
{
    lemma_count_true_extremes(flags);
    if flags.len() > 0 {
        crate::arithmetic::lemma_ratio_bounds(count_true(flags), flags.len());
    }
}

/// How many flags of none, and of all, are set.
proof fn lemma_count_true_extremes(flags: Seq<bool>)
    ensures
        count_true(flags) <= flags.len(),
        (forall|i: int| 0 <= i < flags.len() ==> !flags[i]) ==> count_true(flags) == 0,
        (forall|i: int| 0 <= i < flags.len() ==> flags[i]) ==> count_true(flags) == flags.len(),
    decreases flags.len(),
{
    if flags.len() > 0 {
        let rest = flags.drop_last();
        lemma_count_true_extremes(rest);
        assert(flags.last() == flags[flags.len() - 1]);
        if forall|i: int| 0 <= i < flags.len() ==> !flags[i] {
            assert forall|i: int| 0 <= i < rest.len() implies !rest[i] by {
                assert(!flags[i]);
            }
        }
        if forall|i: int| 0 <= i < flags.len() ==> flags[i] {
            assert forall|i: int| 0 <= i < rest.len() implies rest[i] by {
                assert(flags[i]);
            }
        }
    }
}

/// Flags are counted one by one, wherever they stand.
pub proof fn law_flags_are_counted_one_by_one(a: Seq<bool>, b: Seq<bool>)
    ensures
        count_true(Seq::empty()) == 0,
        count_true(seq![true]) == 1,
        count_true(seq![false]) == 0,
        count_true(a + b) == count_true(a) + count_true(b),
    decreases b.len(),
{
    assert(seq![true].drop_last() =~= Seq::<bool>::empty());
    assert(seq![false].drop_last() =~= Seq::<bool>::empty());
    assert(count_true(Seq::<bool>::empty()) == 0);
    if b.len() == 0 {
        assert(a + b =~= a);
    } else {
        law_flags_are_counted_one_by_one(a, b.drop_last());
        assert((a + b).drop_last() =~= a + b.drop_last());
        assert((a + b).last() == b.last());
    }
}

/// A mask rate is the share of the flags that are set: no number lies nearer to it.
pub proof fn law_a_mask_rate_is_the_share_of_the_set(flags: Seq<bool>, w: Binary32)
    requires
        0 < flags.len() <= 0x100_0000,
        w.finite(),
    ensures
        ({
            let rate = Binary32 { bits: rate_bits(flags) };
            let exact = count_true(flags) * crate::binary32::one_units();
            crate::arithmetic::distance(exact as int, rate.units() * flags.len())
                <= crate::arithmetic::distance(exact as int, w.units() * flags.len())
        }),
{
    let one = crate::binary32::one_units() as int;
    vstd::arithmetic::power2::lemma_pow2_pos(149);
    let (c, n) = (count_true(flags), flags.len());
    lemma_count_true_bound(flags);
    crate::corpus::lemma_small_count(c);
    crate::corpus::lemma_small_count(n);
    crate::arithmetic::lemma_count(c);
    crate::arithmetic::lemma_count(n);
    crate::arithmetic::lemma_ratio_bounds(c, n);
    law_a_mask_rate_is_a_fraction(flags);
    let a = Binary32 { bits: Binary32::count_bits(c) };
    let b = Binary32 { bits: Binary32::count_bits(n) };
    let rate = Binary32 { bits: rate_bits(flags) };
    assert(n * one > 0) by (nonlinear_arith)
        requires
            n > 0,
            one > 0,
    ;
    crate::arithmetic::law_a_quotient_is_rounded_to_the_nearest(a, b, w);
    let (q, v) = (rate.units(), w.units());
    assert(q * (n * one) == (q * n) * one && v * (n * one) == (v * n) * one) by (nonlinear_arith);
    assert(a.units() == c * one && b.units() == n * one);
    lemma_scaled_distance(c * one, q * n, v * n, one);
}

/// Distances that are in order once scaled are in order.
proof fn lemma_scaled_distance(a: int, x: int, y: int, scale: int)
    requires
        scale > 0,
        crate::arithmetic::distance(a * scale, x * scale) <= crate::arithmetic::distance(
            a * scale,
            y * scale,
        ),
    ensures
        crate::arithmetic::distance(a, x) <= crate::arithmetic::distance(a, y),
{
    let (p, q) = (crate::arithmetic::distance(a, x), crate::arithmetic::distance(a, y));
    assert(crate::arithmetic::distance(a * scale, x * scale) == p * scale) by (nonlinear_arith)
        requires
            scale > 0,
            p == crate::arithmetic::distance(a, x),
    ;
    assert(crate::arithmetic::distance(a * scale, y * scale) == q * scale) by (nonlinear_arith)
        requires
            scale > 0,
            q == crate::arithmetic::distance(a, y),
    ;
    assert(p <= q) by (nonlinear_arith)
        requires
            scale > 0,
            p * scale <= q * scale,
    ;
}

} // verus!
