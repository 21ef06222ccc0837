//! Host-side generation on top of [`sample`]: tokens in and tokens out, and
//! the inputs a built graph is fed at each step.
use crate::binary32::{Binary32, ONE_BITS};
use crate::chunk::RetrieverEncode;
use crate::config::CcaConfig;
use crate::retrieval::index::NeighbourIndex;
use crate::retrieval::Neighbours;
use crate::sample::{sample, Denoiser, RetrievalContext, SamplingConfig};
use crate::text::decimal;
use crate::view::{IdSource, MaskToken};
use vstd::prelude::*;
use vstd::string::*;

verus! {

/// Whether chunk `chunk` has neighbours to attend to.
pub open spec fn attends(neighbours: Option<Neighbours>, chunk: int) -> bool {
    match neighbours {
        Some(found) => found.has_neighbours(chunk),
        None => false,
    }
}

/// The per-row retrieval mask: one in the rows of a chunk that has
/// neighbours, zero in the others.
pub open spec fn retrieval_mask_of(
    cca: CcaConfig,
    neighbours: Option<Neighbours>,
) -> Seq<Binary32> {
    Seq::new(
        cca.n() as nat,
        |row: int|
            Binary32 {
                bits: if attends(neighbours, row / cca.m() as int) {
                    ONE_BITS
                } else {
                    0
                },
            },
    )
}

/// The key/value tokens of one chunk: those it retrieved, or mask tokens.
pub open spec fn block_of(
    cca: CcaConfig,
    mask_token: u32,
    neighbours: Option<Neighbours>,
    chunk: int,
) -> Seq<u32> {
    let rows = cca.k() * cca.r();
    if attends(neighbours, chunk) {
        crate::retrieval::corpus::slot(neighbours->0@.tokens, chunk, rows)
    } else {
        Seq::new(rows as nat, |i: int| mask_token)
    }
}

/// The key/value tokens of the first `upto` chunks.
pub open spec fn blocks_of(
    cca: CcaConfig,
    mask_token: u32,
    neighbours: Option<Neighbours>,
    upto: int,
) -> Seq<u32>
    decreases upto,
{
    if upto <= 0 {
        Seq::empty()
    } else {
        blocks_of(cca, mask_token, neighbours, upto - 1) + block_of(
            cca,
            mask_token,
            neighbours,
            upto - 1,
        )
    }
}

/// Whether a neighbour block has the shape that `cca` describes.
pub open spec fn fits(neighbours: Option<Neighbours>, cca: CcaConfig) -> bool {
    neighbours matches Some(found) ==> {
        &&& found.wf()
        &&& found@.l == cca.l()
        &&& found@.k == cca.k()
        &&& found@.r == cca.r()
    }
}

/// What an optional borrowed block holds.
pub open spec fn held(neighbours: Option<&Neighbours>) -> Option<Neighbours> {
    match neighbours {
        Some(found) => Some(*found),
        None => None,
    }
}

/// Pack neighbour tokens and the per-row retrieval mask the soft gate reads.
///
/// A chunk that retrieved nothing carries no block of its own. Attending to
/// padding is not the same as not attending, so the mask forces its
/// contribution to zero. A closed hard gate (`neighbours == None`) must
/// produce a zero mask, not a stale block from the previous step.
pub fn fill_neighbour_inputs(
    cca: CcaConfig,
    mask_token: u32,
    neighbours: Option<&Neighbours>,
    retrieval_mask: &mut Vec<Binary32>,
    neighbour_tokens: &mut Vec<u32>,
)
    requires
        cca.wf(),
        cca.l() * cca.k() * cca.r() <= usize::MAX,
        fits(held(neighbours), cca),
    ensures
        final(retrieval_mask)@ == retrieval_mask_of(cca, held(neighbours)),
        final(neighbour_tokens)@ == blocks_of(cca, mask_token, held(neighbours), cca.l() as int),
        final(neighbour_tokens)@.len() == cca.l() * cca.k() * cca.r(),
{
    let m: usize = cca.chunk_size();
    let l: usize = cca.num_chunks();
    proof {
        lemma_block_rows(cca);
    }
    let rows: usize = cca.neighbour_kv_rows();
    retrieval_mask.clear();
    neighbour_tokens.clear();
    let ghost found = held(neighbours);
    let ghost mask = retrieval_mask_of(cca, found);
    let mut chunk: usize = 0;
    while chunk < l
        invariant
            chunk <= l,
            cca.wf(),
            l == cca.l(),
            m == cca.m(),
            l * m == cca.n(),
            rows == cca.k() * cca.r(),
            l * rows <= usize::MAX,
            found == held(neighbours),
            fits(found, cca),
            mask == retrieval_mask_of(cca, found),
            retrieval_mask@.len() == chunk * m,
            retrieval_mask@ == mask.take(chunk * m),
            neighbour_tokens@.len() == chunk * rows,
            neighbour_tokens@ == blocks_of(cca, mask_token, found, chunk as int),
        decreases l - chunk,
    {
        proof {
            crate::chunk::lemma_slot_in_range(chunk as int, l as int, m as int);
            crate::chunk::lemma_slot_in_range(chunk as int, l as int, rows as int);
            crate::chunk::lemma_slot_in_range(chunk as int, l as int, cca.k() as int);
        }
        let ghost tokens_before = neighbour_tokens@;
        let mut open: bool = false;
        match neighbours {
            Some(block) => {
                if block.chunk_has_neighbours(chunk) {
                    match block.chunk_tokens(chunk) {
                        Some(tokens) => {
                            open = true;
                            neighbour_tokens.extend_from_slice(tokens);
                        },
                        None => {},
                    }
                }
            },
            None => {},
        }
        if !open {
            let blank: Vec<u32> = vec![mask_token; rows];
            neighbour_tokens.extend_from_slice(blank.as_slice());
        }
        proof {
            assert(open == attends(found, chunk as int));
            assert(neighbour_tokens@ =~= tokens_before + block_of(
                cca,
                mask_token,
                found,
                chunk as int,
            ));
        }
        let bits: u32 = if open {
            ONE_BITS
        } else {
            0
        };
        let mut row: usize = 0;
        while row < m
            invariant
                row <= m,
                chunk < l,
                m == cca.m(),
                l * m == cca.n(),
                chunk * m + m <= l * m,
                open == attends(found, chunk as int),
                bits == if open {
                    ONE_BITS
                } else {
                    0u32
                },
                mask == retrieval_mask_of(cca, found),
                retrieval_mask@.len() == chunk * m + row,
                retrieval_mask@ == mask.take(chunk * m + row),
            decreases m - row,
        {
            retrieval_mask.push(Binary32::from_bits(bits));
            proof {
                let i = chunk * m + row;
                vstd::arithmetic::div_mod::lemma_fundamental_div_mod_converse(
                    i,
                    m as int,
                    chunk as int,
                    row as int,
                );
                assert(mask[i].bits == bits);
                assert(retrieval_mask@ =~= mask.take(i + 1));
            }
            row = row + 1;
        }
        proof {
            assert((chunk + 1) * m == chunk * m + m) by (nonlinear_arith);
            assert((chunk + 1) * rows == chunk * rows + rows) by (nonlinear_arith);
        }
        chunk = chunk + 1;
    }
    proof {
        assert(mask.take(l * m) =~= mask);
    }
}

proof fn lemma_block_rows(cca: CcaConfig)
    requires
        cca.wf(),
        cca.l() * cca.k() * cca.r() <= usize::MAX,
    ensures
        cca.k() * cca.r() <= usize::MAX,
        cca.l() * (cca.k() * cca.r()) == cca.l() * cca.k() * cca.r(),
{
    cca.lemma_chunks();
    let (l, k, r) = (cca.l() as int, cca.k() as int, cca.r() as int);
    assert(l * (k * r) == l * k * r && k * r <= l * k * r) by (nonlinear_arith)
        requires
            l > 0,
            k > 0,
            r > 0,
    ;
}

/// A closed gate feeds no neighbour: the mask is zero in every row, and no
/// row of the block holds anything but the mask token.
pub proof fn law_closed_gate_feeds_nothing(cca: CcaConfig, mask_token: u32, upto: int, i: int)
    requires
        0 <= i < blocks_of(cca, mask_token, None, upto).len(),
    ensures
        blocks_of(cca, mask_token, None, upto)[i] == mask_token,
        forall|row: int|
            0 <= row < cca.n() ==> (#[trigger] retrieval_mask_of(cca, None)[row]).bits == 0,
    decreases upto,
{
    if upto > 0 {
        let rest = blocks_of(cca, mask_token, None, upto - 1);
        if i < rest.len() {
            law_closed_gate_feeds_nothing(cca, mask_token, upto - 1, i);
        }
    }
}

/// Where the tokens of one chunk stand among those of the first `upto`.
proof fn lemma_block_place(
    cca: CcaConfig,
    mask_token: u32,
    neighbours: Option<Neighbours>,
    upto: int,
    chunk: int,
    i: int,
)
    requires
        cca.wf(),
        fits(neighbours, cca),
        0 <= chunk < upto <= cca.l(),
        0 <= i < cca.k() * cca.r(),
    ensures
        blocks_of(cca, mask_token, neighbours, upto).len() == upto * (cca.k() * cca.r()),
        blocks_of(cca, mask_token, neighbours, upto)[chunk * (cca.k() * cca.r()) + i] == block_of(
            cca,
            mask_token,
            neighbours,
            chunk,
        )[i],
    decreases upto,
{
    let rows = cca.k() * cca.r();
    let last = upto - 1;
    assert(upto * rows == last * rows + rows) by (nonlinear_arith)
        requires
            last == upto - 1,
    ;
    assert(block_of(cca, mask_token, neighbours, last).len() == rows) by {
        if attends(neighbours, last) {
            let (l, k, r) = (cca.l() as int, cca.k() as int, cca.r() as int);
            assert(0 <= last * rows && last * rows + rows <= l * k * r) by (nonlinear_arith)
                requires
                    0 <= last < l,
                    rows == k * r,
                    rows >= 0,
            ;
        }
    }
    if last > 0 {
        lemma_block_place(cca, mask_token, neighbours, last, if chunk < last { chunk } else { 0 }, i);
    } else {
        assert(blocks_of(cca, mask_token, neighbours, 0).len() == 0);
        assert(0 * rows == 0) by (nonlinear_arith);
    }
    if chunk < last {
        assert(0 <= chunk * rows + i < last * rows) by (nonlinear_arith)
            requires
                0 <= chunk < last,
                0 <= i < rows,
        ;
    }
}

/// Every chunk is fed its own neighbours: token `i` of slot `j` of a chunk that
/// retrieved something is token `i` of the neighbour at slot `j` of that very
/// chunk, and the rows of the chunk attend to it. A chunk that retrieved nothing
/// is fed mask tokens, and its rows attend to nothing.
pub proof fn law_a_chunk_is_fed_its_own_neighbours(
    cca: CcaConfig,
    mask_token: u32,
    neighbours: Option<Neighbours>,
    chunk: int,
    j: int,
    i: int,
    row: int,
)
    requires
        cca.wf(),
        fits(neighbours, cca),
        0 <= chunk < cca.l(),
        0 <= j < cca.k(),
        0 <= i < cca.r(),
        0 <= row < cca.m(),
    ensures
        blocks_of(cca, mask_token, neighbours, cca.l() as int).len() == cca.l() * cca.k() * cca.r(),
        retrieval_mask_of(cca, neighbours).len() == cca.n(),
        ({
            let fed = blocks_of(cca, mask_token, neighbours, cca.l() as int)[(chunk * cca.k() + j)
                * cca.r() + i];
            let shown = retrieval_mask_of(cca, neighbours)[chunk * cca.m() + row];
            if neighbours is Some && exists|s: int|
                0 <= s < cca.k() && (#[trigger] neighbours->0.id_at(chunk, s)) is Some {
                &&& fed == neighbours->0@.tokens[(chunk * cca.k() + j) * cca.r() + i]
                &&& shown.bits == ONE_BITS
            } else {
                &&& fed == mask_token
                &&& shown.bits == 0
            }
        }),
{
    cca.lemma_chunks();
    let (l, m, k, r) = (cca.l() as int, cca.m() as int, cca.k() as int, cca.r() as int);
    let rows = k * r;
    let at = j * r + i;
    assert(0 <= at < rows && chunk * rows + at == (chunk * k + j) * r + i && l * rows == l * k * r)
        by (nonlinear_arith)
        requires
            0 <= j < k,
            0 <= i < r,
            at == j * r + i,
            rows == k * r,
    ;
    lemma_block_place(cca, mask_token, neighbours, l, chunk, at);
    assert(0 <= chunk * m + row < l * m) by (nonlinear_arith)
        requires
            0 <= chunk < l,
            0 <= row < m,
    ;
    vstd::arithmetic::div_mod::lemma_fundamental_div_mod_converse(chunk * m + row, m, chunk, row);
    if attends(neighbours, chunk) {
        assert(0 <= chunk * rows && chunk * rows + rows <= l * rows) by (nonlinear_arith)
            requires
                0 <= chunk < l,
                rows > at >= 0,
        ;
        let found = neighbours->0;
        assert(found.has_neighbours(chunk));
    } else if neighbours is Some {
        assert(!neighbours->0.has_neighbours(chunk));
    }
}

/// Run one denoising trajectory. Tokens in, tokens out.
///
/// The prompt prefix of the returned sequence is the prompt that was passed
/// in; remaining positions have been revealed by [`sample`].
pub fn generate<I: NeighbourIndex, E: RetrieverEncode, D: Denoiser>(
    prompt: &[u32],
    mask_token: MaskToken,
    cfg: CcaConfig,
    sampling: &mut SamplingConfig,
    retrieval: &mut RetrievalContext<'_, I, E>,
    denoiser: &mut D,
    ids: &mut IdSource,
) -> (tokens: Vec<u32>)
    requires
        cfg.wf(),
        prompt@.len() <= cfg.n(),
        old(sampling).refresh.wf(),
        old(retrieval).encoder.width() == old(retrieval).index.width(),
        old(retrieval).corpus@.r == cfg.r(),
        cfg.l() * cfg.k() * cfg.r() <= usize::MAX,
        cfg.l() * old(retrieval).encoder.width() <= usize::MAX,
        old(denoiser).vocab() <= 0x1_0000_0000,
    ensures
        tokens@.len() == cfg.n(),
        forall|i: int|
            0 <= i < prompt@.len() && #[trigger] prompt@[i] != mask_token.0 ==> tokens@[i]
                == prompt@[i],
        exists|
            levels: Seq<crate::schedule::NoiseLevel>,
            steps: Seq<crate::sample::SampleStep>,
            view: crate::view::NoisedView,
        |
            crate::sample::is_trajectory(levels, old(sampling).steps as nat) && view@.tokens
                == tokens@ && #[trigger] crate::sample::setup_of(
                prompt@,
                mask_token,
                cfg,
                levels,
                *old(sampling),
                *old(retrieval).encoder,
                *old(retrieval).index,
                *old(retrieval).corpus,
                *old(retrieval).guard,
                *old(denoiser),
            ).leaves(steps, view) && (old(sampling).reveal == crate::sample::RevealPolicy::Linear
                && steps.len() > 0 ==> fills_masks(
                tokens@,
                mask_token.0,
                steps.last().logits,
                old(denoiser).vocab() as int,
            )) && crate::sample::numbered(steps, old(ids).views()),
        crate::view::drawn(*old(ids), *final(ids), 1 + 2 * old(sampling).steps as nat, 0),
        final(sampling).refresh.wf(),
        final(sampling).steps == old(sampling).steps,
        final(sampling).admission == old(sampling).admission,
        final(sampling).reveal == old(sampling).reveal,
        final(sampling).document == old(sampling).document,
        crate::sample::denoises_alike(*final(denoiser), *old(denoiser)),
        crate::chunk::encodes_alike(*final(retrieval).encoder, *old(retrieval).encoder),
        *final(final(retrieval).encoder) == *final(old(retrieval).encoder),
{
    let (view, _trace) = sample(
        prompt,
        mask_token,
        cfg,
        sampling,
        retrieval,
        denoiser,
        ids,
    );
    let mut tokens: Vec<u32> = Vec::new();
    tokens.extend_from_slice(view.tokens());
    proof {
        assert(tokens@ =~= view@.tokens);
        let (levels, steps) = choose|
            levels: Seq<crate::schedule::NoiseLevel>,
            steps: Seq<crate::sample::SampleStep>,
        |
            crate::sample::is_trajectory(levels, old(sampling).steps as nat)
                && #[trigger] crate::sample::setup_of(
                prompt@,
                mask_token,
                cfg,
                levels,
                *old(sampling),
                *old(retrieval).encoder,
                *old(retrieval).index,
                *old(retrieval).corpus,
                *old(retrieval).guard,
                *old(denoiser),
            ).leaves(steps, view) && (old(sampling).reveal == crate::sample::RevealPolicy::Linear
                && steps.len() > 0 ==> crate::sample::only_hopeless_masked(
                view,
                steps.last().logits,
                old(denoiser).vocab() as int,
            )) && crate::sample::numbered(steps, old(ids).views());
        if old(sampling).reveal == crate::sample::RevealPolicy::Linear && steps.len() > 0 {
            let logits = steps.last().logits;
            assert forall|i: int|
                0 <= i < tokens@.len() && crate::sample::class_at(
                    logits,
                    old(denoiser).vocab() as int,
                    mask_token.0 as int,
                    i,
                ) is Some implies #[trigger] tokens@[i] != mask_token.0 by {
                assert(!view@.masked[i]);
            }
        }
    }
    tokens
}

/// Every position that `logits` offer a legal class for shows a token other
/// than the mask token.
pub open spec fn fills_masks(
    tokens: Seq<u32>,
    mask: u32,
    logits: Seq<Binary32>,
    vocab: int,
) -> bool {
    forall|i: int|
        0 <= i < tokens.len() && crate::sample::class_at(logits, vocab, mask as int, i) is Some
            ==> #[trigger] tokens[i] != mask
}

/// The decimal digits of `ids`, one space between two.
pub open spec fn decoded_chars(ids: Seq<u32>) -> Seq<char>
    decreases ids.len(),
{
    if ids.len() == 0 {
        Seq::empty()
    } else if ids.len() == 1 {
        crate::text::decimal_chars(ids[0] as nat)
    } else {
        decoded_chars(ids.drop_last()) + " "@ + crate::text::decimal_chars(ids.last() as nat)
    }
}

/// Decode token ids as space-separated decimals.
///
/// Tokenizer-free. The interactive program uses a real tokenizer for text.
pub fn decode_token_ids(ids: &[u32]) -> (out: String)
    ensures
        out@ == decoded_chars(ids@),
{
    let mut out: String = String::new();
    let mut i: usize = 0;
    while i < ids.len()
        invariant
            i <= ids.len(),
            out@ == decoded_chars(ids@.take(i as int)),
        decreases ids.len() - i,
    {
        proof {
            assert(ids@.take(i + 1).drop_last() =~= ids@.take(i as int));
        }
        let ghost before = out@;
        if i > 0 {
            out.append(" ");
        }
        out.append(decimal(ids[i] as u64).as_str());
        proof {
            if i == 0 {
                assert(before =~= Seq::<char>::empty());
                assert(out@ =~= crate::text::decimal_chars(ids@[0] as nat));
            }
        }
        i = i + 1;
    }
    proof {
        assert(ids@.take(i as int) =~= ids@);
    }
    out
}

/// Ids are written as decimals with one space between any two, and none at the
/// ends.
pub proof fn law_ids_are_written_with_a_space_between(a: Seq<u32>, b: Seq<u32>, id: u32)
    ensures
        decoded_chars(Seq::empty()) == Seq::<char>::empty(),
        decoded_chars(seq![id]) == crate::text::decimal_chars(id as nat),
        a.len() > 0 && b.len() > 0 ==> decoded_chars(a + b) == decoded_chars(a) + " "@
            + decoded_chars(b),
    decreases b.len(),
{
    let one = seq![id];
    assert(one.drop_last() =~= Seq::<u32>::empty());
    assert(decoded_chars(one.drop_last()) =~= Seq::<char>::empty());
    assert(decoded_chars(one) =~= crate::text::decimal_chars(id as nat));
    if a.len() > 0 && b.len() > 0 {
        assert((a + b).drop_last() =~= a + b.drop_last());
        assert((a + b).last() == b.last());
        if b.len() == 1 {
            assert(b.drop_last() =~= Seq::<u32>::empty());
            assert(a + b.drop_last() =~= a);
            assert(decoded_chars(b.drop_last()) =~= Seq::<char>::empty());
            assert(decoded_chars(b) =~= crate::text::decimal_chars(b.last() as nat));
            assert(decoded_chars(a + b) =~= decoded_chars(a) + " "@ + decoded_chars(b));
        } else {
            law_ids_are_written_with_a_space_between(a, b.drop_last(), id);
            assert(decoded_chars(a + b) =~= decoded_chars(a) + " "@ + decoded_chars(b));
        }
    }
}

} // verus!
