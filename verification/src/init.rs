//! Deterministic parameter initialisation, keyed by a seed and a name.
use crate::binary32::{Binary32, ONE_BITS};
use crate::rng::Rng;
use vstd::arithmetic::power2::*;
use vstd::prelude::*;
use vstd::string::*;

verus! {

/// `a` with its bits rotated left by five places.
pub open spec fn rotated(a: u64) -> u64 {
    (a << 5) | (a >> 59)
}

/// The bytes of a name folded into one word.
pub open spec fn name_mix(bytes: Seq<u8>) -> u64
    decreases bytes.len(),
{
    if bytes.len() == 0 {
        0
    } else {
        rotated(name_mix(bytes.drop_last())) ^ (bytes.last() as u64)
    }
}

/// Whether the four bytes of `norm` stand at `i`.
pub open spec fn norm_at(bytes: Seq<u8>, i: int) -> bool {
    &&& 0 <= i
    &&& i + 4 <= bytes.len()
    &&& bytes[i] == 110
    &&& bytes[i + 1] == 111
    &&& bytes[i + 2] == 114
    &&& bytes[i + 3] == 109
}

/// Whether a name belongs to a norm scale: it holds `norm`.
pub open spec fn is_norm(bytes: Seq<u8>) -> bool {
    exists|i: int| #[trigger] norm_at(bytes, i)
}

/// The half-width of the initial range for a tensor of `len` values: the
/// square root of `2 / len`, at most `0.08`.
pub open spec fn init_scale(len: nat) -> Binary32 {
    let share = Binary32 {
        bits: (Binary32 { bits: 0x4000_0000 }).quotient_bits(
            (Binary32 { bits: Binary32::count_bits(len) }),
        ),
    };
    (Binary32 { bits: share.root_bits() }).smaller_of((Binary32 { bits: 0x3DA3_D70A }))
}

/// The value a draw `x` in the unit interval gives: `(x - 0.5) * 2 * scale`.
pub open spec fn init_value(x: Binary32, scale: Binary32) -> Binary32 {
    let centred = Binary32 { bits: x.difference_bits((Binary32 { bits: 0x3F00_0000 })) };
    let wide = Binary32 { bits: centred.product_bits((Binary32 { bits: 0x4000_0000 })) };
    Binary32 { bits: wide.product_bits(scale) }
}

/// Fold the bytes of a name into one word.
fn mix_name(bytes: &[u8]) -> (mix: u64)
    ensures
        mix == name_mix(bytes@),
{
    let mut a: u64 = 0;
    let mut i: usize = 0;
    while i < bytes.len()
        invariant
            i <= bytes.len(),
            a == name_mix(bytes@.take(i as int)),
        decreases bytes.len() - i,
    {
        proof {
            assert(bytes@.take(i + 1).drop_last() =~= bytes@.take(i as int));
        }
        a = ((a << 5) | (a >> 59)) ^ (bytes[i] as u64);
        i = i + 1;
    }
    proof {
        assert(bytes@.take(i as int) =~= bytes@);
    }
    a
}

/// Whether a name holds `norm`.
fn names_norm(bytes: &[u8]) -> (b: bool)
    ensures
        b == is_norm(bytes@),
{
    let len: usize = bytes.len();
    let mut i: usize = 0;
    while len >= 4 && i <= len - 4
        invariant
            len == bytes@.len(),
            i <= len,
            forall|j: int| 0 <= j < i ==> !(#[trigger] norm_at(bytes@, j)),
        decreases len - i,
    {
        if bytes[i] == 110 && bytes[i + 1] == 111 && bytes[i + 2] == 114 && bytes[i + 3] == 109 {
            assert(norm_at(bytes@, i as int));
            return true;
        }
        i = i + 1;
    }
    false
}

/// The initial values of a parameter of `len` values: ones for a norm scale,
/// and else a small symmetric range, so the first forward does not blow up.
pub fn seed_values(name: &str, len: usize, seed: u64) -> (values: Vec<Binary32>)
    ensures
        values@.len() == len,
        is_norm(name.spec_bytes()) ==> forall|i: int|
            0 <= i < len ==> (#[trigger] values@[i]).bits == ONE_BITS,
        !is_norm(name.spec_bytes()) ==> forall|i: int|
            0 <= i < len ==> #[trigger] values@[i] == init_value(
                (Binary32 {
                    bits: crate::rng::drawn_unit_bits(
                        crate::rng::advanced_by(seed ^ name_mix(name.spec_bytes()), i as nat),
                    ),
                }),
                init_scale(len as nat),
            ),
{
    let bytes: &[u8] = name.as_bytes();
    let norm: bool = names_norm(bytes);
    let mixed: u64 = mix_name(bytes);
    let mut rng: Rng = Rng::new(seed ^ mixed);
    let two: Binary32 = Binary32::from_bits(0x4000_0000);
    let half: Binary32 = Binary32::from_bits(0x3F00_0000);
    let scale: Binary32 = two.over(Binary32::from_count(len as u64)).square_root().smaller(
        Binary32::from_bits(0x3DA3_D70A),
    );
    let ghost start = seed ^ mixed;
    let mut values: Vec<Binary32> = Vec::new();
    let mut i: usize = 0;
    while i < len
        invariant
            i <= len,
            values@.len() == i,
            two.bits == 0x4000_0000u32,
            half.bits == 0x3F00_0000u32,
            scale == init_scale(len as nat),
            norm ==> forall|j: int| 0 <= j < i ==> (#[trigger] values@[j]).bits == ONE_BITS,
            !norm ==> rng.seed() == crate::rng::advanced_by(start, i as nat),
            !norm ==> forall|j: int|
                0 <= j < i ==> #[trigger] values@[j] == init_value(
                    (Binary32 {
                        bits: crate::rng::drawn_unit_bits(
                            crate::rng::advanced_by(start, j as nat),
                        ),
                    }),
                    scale,
                ),
        decreases len - i,
    {
        let v: Binary32 = if norm {
            Binary32::from_bits(ONE_BITS)
        } else {
            let x: Binary32 = rng.next_f32();
            proof {
                assert(half == (Binary32 { bits: 0x3F00_0000 }));
                assert(two == (Binary32 { bits: 0x4000_0000 }));
            }
            x.minus(half).times(two).times(scale)
        };
        values.push(v);
        i = i + 1;
    }
    values
}

/// Whether `name` is one of `names`.
pub open spec fn lists(names: Seq<String>, name: Seq<char>) -> bool {
    exists|i: int| 0 <= i < names.len() && (#[trigger] names[i])@ == name
}

/// Whether a parameter is among those to be written: all of them, or those
/// listed.
pub fn is_selected(name: &str, only: Option<&[String]>) -> (b: bool)
    ensures
        b == match only {
            None => true,
            Some(names) => lists(names@, name@),
        },
{
    match only {
        None => true,
        Some(names) => {
            let wanted: String = String::from_str(name);
            let mut i: usize = 0;
            while i < names.len()
                invariant
                    i <= names@.len(),
                    wanted@ == name@,
                    only == Some(names),
                    forall|j: int| 0 <= j < i ==> (#[trigger] names@[j])@ != name@,
                decreases names.len() - i,
            {
                if names[i] == wanted {
                    return true;
                }
                i = i + 1;
            }
            false
        },
    }
}

/// Whether `values` are the initial values of a parameter called `name`.
pub open spec fn seeds(values: Seq<Binary32>, name: Seq<char>, len: nat, seed: u64) -> bool {
    let bytes = vstd::utf8::encode_utf8(name);
    &&& values.len() == len
    &&& forall|i: int|
        0 <= i < len ==> #[trigger] values[i] == if is_norm(bytes) {
            (Binary32 { bits: ONE_BITS })
        } else {
            init_value(
                (Binary32 {
                    bits: crate::rng::drawn_unit_bits(
                        crate::rng::advanced_by(seed ^ name_mix(bytes), i as nat),
                    ),
                }),
                init_scale(len),
            )
        }
}

/// The parameters among the first `upto` that are to be written.
pub open spec fn selected(
    params: Seq<(String, usize)>,
    only: Option<Seq<String>>,
    upto: nat,
) -> Seq<(String, usize)>
    decreases upto,
{
    if upto == 0 {
        Seq::empty()
    } else {
        let rest = selected(params, only, (upto - 1) as nat);
        let param = params[upto - 1];
        if only is None || lists(only->0, param.0@) {
            rest.push(param)
        } else {
            rest
        }
    }
}

/// The names of a restriction, if there is one.
pub open spec fn restriction(only: Option<&[String]>) -> Option<Seq<String>> {
    match only {
        Some(names) => Some(names@),
        None => None,
    }
}

/// The initial values of every parameter, keyed by `seed` and the parameter's
/// name.
///
/// `only` restricts the write to that name list (the retrofit's trainable
/// tensors, after a pretrained backbone has already been copied in). Norm
/// scale parameters are initialised at 1; everything else is a small symmetric
/// range.
pub fn seed_parameters(params: &[(String, usize)], seed: u64, only: Option<&[String]>) -> (writes:
    Vec<(String, Vec<Binary32>)>)
    ensures
        ({
            let chosen = selected(params@, restriction(only), params@.len());
            &&& writes@.len() == chosen.len()
            &&& forall|i: int|
                0 <= i < chosen.len() ==> (#[trigger] writes@[i]).0@ == chosen[i].0@ && seeds(
                    writes@[i].1@,
                    chosen[i].0@,
                    chosen[i].1 as nat,
                    seed,
                )
        }),
{
    let mut writes: Vec<(String, Vec<Binary32>)> = Vec::new();
    let ghost names = restriction(only);
    let mut i: usize = 0;
    while i < params.len()
        invariant
            i <= params@.len(),
            names == restriction(only),
            writes@.len() == selected(params@, names, i as nat).len(),
            forall|j: int|
                0 <= j < writes@.len() ==> (#[trigger] writes@[j]).0@ == selected(
                    params@,
                    names,
                    i as nat,
                )[j].0@ && seeds(
                    writes@[j].1@,
                    selected(params@, names, i as nat)[j].0@,
                    selected(params@, names, i as nat)[j].1 as nat,
                    seed,
                ),
        decreases params.len() - i,
    {
        let name: &str = params[i].0.as_str();
        if is_selected(name, only) {
            let values: Vec<Binary32> = seed_values(name, params[i].1, seed);
            proof {
                assert(seeds(values@, name@, params@[i as int].1 as nat, seed));
            }
            writes.push((String::from_str(name), values));
        }
        i = i + 1;
    }
    writes
}

/// A parameter is written exactly where it is asked for; without a restriction
/// every one is, in order.
pub proof fn law_what_is_asked_for_is_written(
    params: Seq<(String, usize)>,
    only: Option<Seq<String>>,
    param: (String, usize),
)
    ensures
        ({
            let asked = match only {
                None => true,
                Some(names) => exists|j: int|
                    0 <= j < names.len() && (#[trigger] names[j])@ == param.0@,
            };
            selected(params, only, params.len()).contains(param) <==> params.contains(param)
                && asked
        }),
        only is None ==> selected(params, only, params.len()) == params,
{
    lemma_selected(params, only, params.len(), param);
    assert(params.take(params.len() as int) =~= params);
    if only is None {
        lemma_all_selected(params, params.len());
    }
}

proof fn lemma_all_selected(params: Seq<(String, usize)>, upto: nat)
    requires
        upto <= params.len(),
    ensures
        selected(params, None, upto) == params.take(upto as int),
    decreases upto,
{
    if upto > 0 {
        lemma_all_selected(params, (upto - 1) as nat);
        assert(params.take(upto as int) =~= params.take(upto - 1).push(params[upto - 1]));
    } else {
        assert(params.take(0) =~= Seq::empty());
    }
}

proof fn lemma_selected(
    params: Seq<(String, usize)>,
    only: Option<Seq<String>>,
    upto: nat,
    param: (String, usize),
)
    requires
        upto <= params.len(),
    ensures
        selected(params, only, upto).contains(param) <==> params.take(upto as int).contains(param)
            && (only is None || lists(only->0, param.0@)),
    decreases upto,
{
    if upto > 0 {
        let last = params[upto - 1];
        lemma_selected(params, only, (upto - 1) as nat, param);
        let rest = selected(params, only, (upto - 1) as nat);
        let seen = params.take(upto - 1);
        assert(params.take(upto as int) =~= seen.push(last));
        lemma_contains_after_push(seen, last, param);
        lemma_contains_after_push(rest, last, param);
    }
}

proof fn lemma_contains_after_push(
    items: Seq<(String, usize)>,
    last: (String, usize),
    item: (String, usize),
)
    ensures
        items.push(last).contains(item) <==> items.contains(item) || item == last,
{
    let all = items.push(last);
    if items.contains(item) {
        let k = choose|k: int| 0 <= k < items.len() && items[k] == item;
        assert(all[k] == item);
    }
    if item == last {
        assert(all[items.len() as int] == item);
    }
    if all.contains(item) {
        let k = choose|k: int| 0 <= k < all.len() && all[k] == item;
        if k < items.len() {
            assert(items[k] == item);
        }
    }
}

/// The words of one half, one and two.
proof fn lemma_halves()
    ensures
        2 * crate::binary32::magnitude(0x3F00_0000) == crate::binary32::magnitude(ONE_BITS as nat),
        crate::binary32::magnitude(0x4000_0000) == 2 * crate::binary32::magnitude(ONE_BITS as nat),
        crate::binary32::magnitude(ONE_BITS as nat) == pow2(149),
{
    lemma2_to64();
    lemma_pow2_adds(23, 125);
    lemma_pow2_adds(23, 126);
    lemma_pow2_adds(23, 127);
    lemma_pow2_unfold(149);
    lemma_pow2_unfold(150);
    assert(0x3F00_0000nat / 0x80_0000 == 126 && 0x3F00_0000nat % 0x80_0000 == 0);
    assert(0x3F80_0000nat / 0x80_0000 == 127 && 0x3F80_0000nat % 0x80_0000 == 0);
    assert(0x4000_0000nat / 0x80_0000 == 128 && 0x4000_0000nat % 0x80_0000 == 0);
}

/// A product that is exactly no larger than a number is rounded to no more.
pub proof fn lemma_product_within(a: Binary32, b: Binary32, cap: u32)
    requires
        a.finite(),
        b.finite(),
        cap < crate::binary32::INFINITY_BITS,
        a.size() * b.size() <= crate::binary32::magnitude(cap as nat) * pow2(149),
    ensures
        ({
            let p = Binary32 { bits: a.product_bits(b) };
            &&& p.finite()
            &&& p.size() <= crate::binary32::magnitude(cap as nat)
            &&& p.negative() == (a.negative() != b.negative())
        }),
{
    reveal(Binary32::product_bits);
    lemma_pow2_pos(149);
    let one = pow2(149);
    let num = a.size() * b.size();
    let most = crate::binary32::magnitude(cap as nat) * one;
    crate::binary32::lemma_nearest_exact(cap, most, one);
    crate::binary32::lemma_nearest_exists(num, one);
    assert(num * one <= most * one) by (nonlinear_arith)
        requires
            num <= most,
    ;
    crate::binary32::lemma_nearest_monotone(num, one, most, one);
    let p = Binary32 { bits: a.product_bits(b) };
    assert(p.word() == crate::binary32::nearest(num, one));
    crate::binary32::lemma_magnitude_compares(p.word(), cap as nat);
}

/// A draw less one half is no further from zero than one half, on the side on
/// which the draw lies of it.
proof fn lemma_centred(x: Binary32)
    requires
        x.finite(),
        0 <= x.units() < pow2(149),
    ensures
        ({
            let half = Binary32 { bits: 0x3F00_0000 };
            let c = Binary32 { bits: x.difference_bits(half) };
            &&& c.finite()
            &&& c.size() <= half.size()
            &&& x.is_less(half) ==> c.negative()
            &&& half.is_less(x) ==> !c.negative()
        }),
{
    let half = Binary32 { bits: 0x3F00_0000 };
    let c = Binary32 { bits: x.difference_bits(half) };
    lemma_halves();
    crate::arithmetic::law_a_difference_has_the_sign_of_the_order(x, half);
    reveal(Binary32::sum_bits);
    let away = crate::arithmetic::distance(x.units(), half.units()) as nat;
    let other = Binary32 { bits: half.negated_bits() };
    assert(other.word() == half.word() && other.units() == -half.units());
    crate::binary32::lemma_nearest_exact(0x3F00_0000, half.size(), 1);
    crate::binary32::lemma_nearest_exists(away, 1);
    crate::binary32::lemma_nearest_monotone(away, 1, half.size(), 1);
    crate::arithmetic::lemma_zero_is_nearest(1);
    assert(c.word() == crate::binary32::nearest(away, 1));
    crate::binary32::lemma_magnitude_compares(c.word(), 0x3F00_0000);
}

/// The initial values lie in a symmetric range: no further from zero than the
/// scale, on the side of zero on which the draw lies of one half.
pub proof fn law_initial_values_lie_around_zero(state: u64, scale: Binary32)
    requires
        scale.finite(),
        !scale.negative(),
    ensures
        ({
            let x = Binary32 { bits: crate::rng::drawn_unit_bits(state) };
            let v = init_value(x, scale);
            let half = Binary32 { bits: 0x3F00_0000 };
            &&& v.finite()
            &&& v.size() <= scale.size()
            &&& x.is_less(half) ==> v.units() <= 0
            &&& half.is_less(x) ==> v.units() >= 0
        }),
{
    let x = Binary32 { bits: crate::rng::drawn_unit_bits(state) };
    let half = Binary32 { bits: 0x3F00_0000 };
    let two = Binary32 { bits: 0x4000_0000 };
    let centred = Binary32 { bits: x.difference_bits(half) };
    let wide = Binary32 { bits: centred.product_bits(two) };
    let one = pow2(149);
    crate::rng::law_unit_draws_are_below_one(state);
    lemma_halves();
    lemma_centred(x);
    let (h, c, t) = (half.size(), centred.size(), two.size());
    assert(c * t <= one * one) by (nonlinear_arith)
        requires
            c <= h,
            2 * h == one,
            t == 2 * one,
    ;
    lemma_product_within(centred, two, ONE_BITS);
    let (w, s) = (wide.size(), scale.size());
    assert(w * s <= s * one) by (nonlinear_arith)
        requires
            w <= one,
    ;
    lemma_product_within(wide, scale, scale.bits);
}

/// The range of a tensor reaches at most eight hundredths to either side.
pub proof fn law_the_range_is_capped(len: nat)
    ensures
        init_scale(len).is_at_most((Binary32 { bits: 0x3DA3_D70A })),
{
}

} // verus!
