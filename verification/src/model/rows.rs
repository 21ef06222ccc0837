//! Row slicing and row concatenation on channel-shaped operators.
//!
//! [`Plan::split_a`], [`Plan::split_b`] and [`Plan::concat`] address an
//! `[N, C, spatial]` layout: they are made for convolutional channel splits. A
//! row-major `[rows, d]` matrix is the same buffer as `[1, rows, d]`, so
//! setting `N = 1`, `C = rows`, `spatial = d` turns a channel split into a row
//! slice with no data movement and no new operator.
//!
//! # Why every edge is flattened explicitly
//!
//! These three operators produce **rank-1** values, and the gradient they hand
//! back to an input is rank-1 too. A matrix product's gradient rule wants
//! rank 2. So each edge into a split or a concat is an explicit `reshape` to
//! rank 1 first, and a reshape hands its own operand a gradient of the
//! operand's shape.
use super::plan::{NodeId, Plan};
use vstd::prelude::*;

verus! {

/// Rows `start .. start + count` of a `[rows, d]` value.
pub open spec fn sliced(
    x: super::plan::Expr,
    rows: nat,
    d: nat,
    start: nat,
    count: nat,
) -> super::plan::Expr {
    if start == 0 && count == rows {
        x
    } else {
        let flat = super::plan::reshaped(x, seq![rows * d]);
        let tail = if start > 0 {
            super::plan::last_channels(flat, 1, start as u32, (rows - start) as u32, d as u32)
        } else {
            flat
        };
        let kept = if count < rows - start {
            super::plan::first_channels(
                tail,
                1,
                count as u32,
                (rows - start - count) as u32,
                d as u32,
            )
        } else {
            tail
        };
        super::plan::reshaped(kept, seq![count, d])
    }
}

/// How many rows the first `upto` parts have.
pub open spec fn rows_below(parts: Seq<(super::plan::Expr, nat)>, upto: nat) -> nat
    decreases upto,
{
    if upto == 0 {
        0
    } else {
        rows_below(parts, (upto - 1) as nat) + parts[upto - 1].1
    }
}

/// The first `upto` parts, joined into one flat value.
pub open spec fn stacked_flat(
    parts: Seq<(super::plan::Expr, nat)>,
    d: nat,
    upto: nat,
) -> super::plan::Expr
    decreases upto,
{
    let flat = super::plan::reshaped(parts[upto - 1].0, seq![parts[upto - 1].1 * d]);
    if upto <= 1 {
        flat
    } else {
        super::plan::joined(
            stacked_flat(parts, d, (upto - 1) as nat),
            flat,
            1,
            rows_below(parts, (upto - 1) as nat) as u32,
            parts[upto - 1].1 as u32,
            d as u32,
        )
    }
}

/// `[rows_i, d]` values stacked into one.
pub open spec fn stacked(parts: Seq<(super::plan::Expr, nat)>, d: nat) -> super::plan::Expr {
    if parts.len() == 1 {
        super::plan::reshaped(parts[0].0, seq![parts[0].1, d])
    } else {
        super::plan::reshaped(
            stacked_flat(parts, d, parts.len()),
            seq![rows_below(parts, parts.len()), d],
        )
    }
}

/// A `[rows, d]` value with a column appended.
pub open spec fn widened(
    x: super::plan::Expr,
    column: super::plan::Expr,
    rows: nat,
    d: nat,
) -> super::plan::Expr {
    super::plan::reshaped(
        super::plan::joined(
            super::plan::reshaped(x, seq![rows * d]),
            super::plan::reshaped(column, seq![rows]),
            rows as u32,
            d as u32,
            1,
            1,
        ),
        seq![rows, d + 1],
    )
}

/// The elements of a vector and of a matrix.
pub proof fn lemma_elements(a: nat, b: nat)
    ensures
        super::plan::elements(seq![a]) == a,
        super::plan::elements(seq![a, b]) == a * b,
{
    let one = super::plan::elements(Seq::<nat>::empty());
    assert(seq![a].drop_last() =~= Seq::<nat>::empty());
    assert(one * a == a) by (nonlinear_arith)
        requires
            one == 1,
    ;
    let pair = seq![a, b];
    assert(pair.drop_last() =~= seq![a]);
    assert(super::plan::elements(pair) == super::plan::elements(seq![a]) * b);
}

/// The numbers of a one-axis and of a two-axis shape.
pub proof fn lemma_dims(shape: Seq<usize>)
    ensures
        shape.len() == 1 ==> super::plan::dims(shape) == seq![shape[0] as nat],
        shape.len() == 2 ==> super::plan::dims(shape) == seq![shape[0] as nat, shape[1] as nat],
{
    if shape.len() == 1 {
        assert(super::plan::dims(shape) =~= seq![shape[0] as nat]);
    } else if shape.len() == 2 {
        assert(super::plan::dims(shape) =~= seq![shape[0] as nat, shape[1] as nat]);
    }
}

/// Rows `start .. start + count` of a `[rows, d]` value.
///
/// Costs at most two operators plus the reshapes.
pub fn slice_rows(
    g: &mut Plan,
    x: NodeId,
    rows: usize,
    d: usize,
    start: usize,
    count: usize,
) -> (id: NodeId)
    requires
        old(g).wf(),
        old(g).holds(x),
        !old(g).expr(x).is_ids,
        old(g).expr(x).shape == seq![rows as nat, d as nat],
        start + count <= rows,
        count > 0,
        rows <= u32::MAX,
        d <= u32::MAX,
        rows * d <= usize::MAX,
    ensures
        final(g).grows(*old(g)),
        final(g).holds(id),
        final(g).expr(id) == sliced(
            old(g).expr(x),
            rows as nat,
            d as nat,
            start as nat,
            count as nat,
        ),
        final(g).expr(id).shape == seq![count as nat, d as nat],
        !final(g).expr(id).is_ids,
        id.0 >= old(g).count() || id == x,
        id.0 >= old(g).count() ==> final(g).label(id) is None,
        final(g).params() == old(g).params(),
{
    if start == 0 && count == rows {
        return x;
    }
    proof {
        lemma_elements((rows * d) as nat, 0);
        lemma_elements(rows as nat, d as nat);
    }
    let flat_shape: [usize; 1] = [rows * d];
    proof {
        lemma_dims(flat_shape@);
    }
    let mut cur: NodeId = g.reshape(x, flat_shape.as_slice());
    let mut cur_rows: usize = rows;
    if start > 0 {
        let tail: usize = cur_rows - start;
        proof {
            assert(1 * (start + tail) * d == rows * d) by (nonlinear_arith)
                requires
                    start + tail == rows,
            ;
            assert(1 * tail * d == tail * d) by (nonlinear_arith);
            assert(tail * d <= rows * d) by (nonlinear_arith)
                requires
                    tail <= rows,
            ;
        }
        cur = g.split_b(cur, 1, start as u32, tail as u32, d as u32);
        cur_rows = tail;
    }
    if count < cur_rows {
        let rest: usize = cur_rows - count;
        proof {
            assert(1 * (count + rest) * d == cur_rows * d) by (nonlinear_arith)
                requires
                    count + rest == cur_rows,
            ;
            assert(1 * count * d == count * d) by (nonlinear_arith);
            assert(cur_rows * d <= rows * d) by (nonlinear_arith)
                requires
                    cur_rows <= rows,
            ;
        }
        cur = g.split_a(cur, 1, count as u32, rest as u32, d as u32);
    }
    let shape: [usize; 2] = [count, d];
    proof {
        lemma_dims(shape@);
        lemma_elements(count as nat, d as nat);
        lemma_elements((count * d) as nat, 0);
    }
    g.reshape(cur, shape.as_slice())
}

/// What the parts compute, and how many rows each has.
pub open spec fn part_exprs(g: Plan, parts: Seq<(NodeId, usize)>) -> Seq<(super::plan::Expr, nat)> {
    Seq::new(parts.len(), |i: int| (g.expr(parts[i].0), parts[i].1 as nat))
}

proof fn lemma_rows_below_grows(parts: Seq<(super::plan::Expr, nat)>, low: nat, high: nat)
    requires
        low <= high,
    ensures
        rows_below(parts, low) <= rows_below(parts, high),
    decreases high,
{
    if low < high {
        lemma_rows_below_grows(parts, low, (high - 1) as nat);
    }
}

/// Stack `[rows_i, d]` values into one `[sum(rows_i), d]` value.
///
/// Folds left, so the operator count is one less than that of the parts.
pub fn concat_rows(g: &mut Plan, parts: &[(NodeId, usize)], d: usize) -> (id: NodeId)
    requires
        old(g).wf(),
        parts@.len() > 0,
        forall|i: int|
            0 <= i < parts@.len() ==> {
                &&& old(g).holds((#[trigger] parts@[i]).0)
                &&& !old(g).expr(parts@[i].0).is_ids
                &&& old(g).expr(parts@[i].0).shape == seq![parts@[i].1 as nat, d as nat]
            },
        rows_below(part_exprs(*old(g), parts@), parts@.len()) <= u32::MAX,
        d <= u32::MAX,
        rows_below(part_exprs(*old(g), parts@), parts@.len()) * d <= usize::MAX,
    ensures
        final(g).grows(*old(g)),
        final(g).holds(id),
        id.0 >= old(g).count(),
        final(g).label(id) is None,
        final(g).expr(id) == stacked(part_exprs(*old(g), parts@), d as nat),
        final(g).expr(id).shape == seq![
            rows_below(part_exprs(*old(g), parts@), parts@.len()),
            d as nat,
        ],
        !final(g).expr(id).is_ids,
        final(g).params() == old(g).params(),
{
    let ghost exprs = part_exprs(*old(g), parts@);
    let ghost total = rows_below(exprs, parts@.len());
    let (first, first_rows) = parts[0];
    proof {
        assert(exprs[0] == (old(g).expr(first), first_rows as nat));
        assert(rows_below(exprs, 0) == 0);
        assert(rows_below(exprs, 1) == first_rows);
        lemma_rows_below_grows(exprs, 1, parts@.len());
        assert(first_rows * d <= total * d) by (nonlinear_arith)
            requires
                first_rows <= total,
        ;
        lemma_elements(first_rows as nat, d as nat);
        lemma_elements((first_rows * d) as nat, 0);
    }
    if parts.len() == 1 {
        let shape: [usize; 2] = [first_rows, d];
        proof {
            lemma_dims(shape@);
        }
        return g.reshape(first, shape.as_slice());
    }
    let flat_shape: [usize; 1] = [first_rows * d];
    proof {
        lemma_dims(flat_shape@);
    }
    let mut acc: NodeId = g.reshape(first, flat_shape.as_slice());
    let mut acc_rows: usize = first_rows;
    let mut i: usize = 1;
    while i < parts.len()
        invariant
            1 <= i <= parts@.len(),
            exprs == part_exprs(*old(g), parts@),
            total == rows_below(exprs, parts@.len()),
            total <= u32::MAX,
            d <= u32::MAX,
            total * d <= usize::MAX,
            forall|j: int|
                0 <= j < parts@.len() ==> {
                    &&& old(g).holds((#[trigger] parts@[j]).0)
                    &&& !old(g).expr(parts@[j].0).is_ids
                    &&& old(g).expr(parts@[j].0).shape == seq![parts@[j].1 as nat, d as nat]
                },
            g.grows(*old(g)),
            g.holds(acc),
            acc.0 >= old(g).count(),
            g.label(acc) is None,
            g.params() == old(g).params(),
            acc_rows == rows_below(exprs, i as nat),
            g.expr(acc) == stacked_flat(exprs, d as nat, i as nat),
            g.expr(acc).shape == seq![(acc_rows * d) as nat],
            !g.expr(acc).is_ids,
        decreases parts.len() - i,
    {
        let (node, rows) = parts[i];
        proof {
            assert(old(g).holds(parts@[i as int].0));
            assert(exprs[i as int] == (old(g).expr(node), rows as nat));
            lemma_rows_below_grows(exprs, (i + 1) as nat, parts@.len());
            assert(rows * d <= total * d && (acc_rows + rows) * d <= total * d)
                by (nonlinear_arith)
                requires
                    0 <= acc_rows,
                    acc_rows + rows <= total,
            ;
            assert(1 * (acc_rows + rows) * d == (acc_rows + rows) * d) by (nonlinear_arith);
            assert(1 * acc_rows * d == acc_rows * d) by (nonlinear_arith);
            assert(1 * rows * d == rows * d) by (nonlinear_arith);
            lemma_elements(rows as nat, d as nat);
            lemma_elements((rows * d) as nat, 0);
        }
        let part_shape: [usize; 1] = [rows * d];
        proof {
            lemma_dims(part_shape@);
        }
        let flat: NodeId = g.reshape(node, part_shape.as_slice());
        acc = g.concat(acc, flat, 1, acc_rows as u32, rows as u32, d as u32);
        acc_rows = acc_rows + rows;
        i = i + 1;
    }
    let shape: [usize; 2] = [acc_rows, d];
    proof {
        lemma_dims(shape@);
        lemma_elements(acc_rows as nat, d as nat);
        lemma_elements((acc_rows * d) as nat, 0);
    }
    g.reshape(acc, shape.as_slice())
}

/// Append a column of per-row scalars: `[rows, d] ++ [rows, 1] -> [rows, d+1]`.
///
/// Feature-wise rather than row-wise, so the `[N, C, spatial]` mapping is the
/// other one: `N = rows`, `C = d` and `1`, `spatial = 1`.
pub fn append_column(g: &mut Plan, x: NodeId, col: NodeId, rows: usize, d: usize) -> (id: NodeId)
    requires
        old(g).wf(),
        old(g).holds(x),
        old(g).holds(col),
        !old(g).expr(x).is_ids,
        !old(g).expr(col).is_ids,
        old(g).expr(x).shape == seq![rows as nat, d as nat],
        old(g).expr(col).shape == seq![rows as nat, 1nat],
        rows <= u32::MAX,
        d < u32::MAX,
        rows * (d + 1) <= usize::MAX,
    ensures
        final(g).grows(*old(g)),
        final(g).holds(id),
        id.0 >= old(g).count(),
        final(g).label(id) is None,
        final(g).expr(id) == widened(
            old(g).expr(x),
            old(g).expr(col),
            rows as nat,
            d as nat,
        ),
        final(g).expr(id).shape == seq![rows as nat, (d + 1) as nat],
        !final(g).expr(id).is_ids,
        final(g).params() == old(g).params(),
{
    proof {
        assert(rows * d <= rows * (d + 1)) by (nonlinear_arith);
        lemma_elements(rows as nat, d as nat);
        lemma_elements((rows * d) as nat, 0);
        lemma_elements(rows as nat, 1);
        lemma_elements(rows as nat, (d + 1) as nat);
        lemma_elements((rows * (d + 1)) as nat, 0);
        assert(rows * d * 1 == rows * d) by (nonlinear_arith);
        assert(rows * 1 * 1 == rows) by (nonlinear_arith);
        assert(rows * (d + 1) * 1 == rows * (d + 1)) by (nonlinear_arith);
    }
    let x_shape: [usize; 1] = [rows * d];
    let col_shape: [usize; 1] = [rows];
    proof {
        lemma_dims(x_shape@);
        lemma_dims(col_shape@);
    }
    let x_flat: NodeId = g.reshape(x, x_shape.as_slice());
    let col_flat: NodeId = g.reshape(col, col_shape.as_slice());
    let joined: NodeId = g.concat(x_flat, col_flat, rows as u32, d as u32, 1, 1);
    let shape: [usize; 2] = [rows, d + 1];
    proof {
        lemma_dims(shape@);
    }
    g.reshape(joined, shape.as_slice())
}

/// Where element `i` of a value comes from, followed back through reshapes,
/// splits and concatenations: the value that computes it, and its place there.
///
/// A flat `[batch, channels, spatial]` value holds batch after batch, and in
/// each batch channel after channel.
pub open spec fn origin(e: super::plan::Expr, i: int) -> (super::plan::Expr, int)
    decreases e,
{
    match e.op {
        super::plan::Op::Reshape => if e.args.len() == 1 {
            origin(e.args[0], i)
        } else {
            (e, i)
        },
        super::plan::Op::SplitA { batch, channels_a, channels_b, spatial } => if e.args.len()
            == 1 {
            let kept = channels_a * spatial;
            let whole = (channels_a + channels_b) * spatial;
            origin(e.args[0], (i / kept) * whole + i % kept)
        } else {
            (e, i)
        },
        super::plan::Op::SplitB { batch, channels_a, channels_b, spatial } => if e.args.len()
            == 1 {
            let kept = channels_b * spatial;
            let whole = (channels_a + channels_b) * spatial;
            origin(e.args[0], (i / kept) * whole + channels_a * spatial + i % kept)
        } else {
            (e, i)
        },
        super::plan::Op::Concat { batch, channels_a, channels_b, spatial } => if e.args.len()
            == 2 {
            let first = channels_a * spatial;
            let second = channels_b * spatial;
            let whole = (channels_a + channels_b) * spatial;
            let (n, at) = (i / whole, i % whole);
            if at < first {
                origin(e.args[0], n * first + at)
            } else {
                origin(e.args[1], n * second + at - first)
            }
        } else {
            (e, i)
        },
        _ => (e, i),
    }
}

proof fn lemma_within(i: int, size: int)
    requires
        0 <= i < size,
    ensures
        i / size == 0,
        i % size == i,
        (i / size) * size == 0,
{
    vstd::arithmetic::div_mod::lemma_fundamental_div_mod_converse(i, size, 0, i);
}

/// A row slice is a row slice: element `(i, j)` of the result is element
/// `(start + i, j)` of the operand.
pub proof fn law_slice_takes_rows(
    x: super::plan::Expr,
    rows: nat,
    d: nat,
    start: nat,
    count: nat,
    i: int,
    j: int,
)
    requires
        start + count <= rows <= u32::MAX,
        d <= u32::MAX,
        0 <= i < count,
        0 <= j < d,
    ensures
        origin(sliced(x, rows, d, start, count), i * d + j) == origin(x, (start + i) * d + j),
{
    let at = i * d + j;
    let flat = super::plan::reshaped(x, seq![rows * d]);
    assert((start + i) * d + j == start * d + at) by (nonlinear_arith)
        requires
            at == i * d + j,
    ;
    assert(0 <= at < count * d) by (nonlinear_arith)
        requires
            0 <= i < count,
            0 <= j < d,
            at == i * d + j,
    ;
    if start == 0 && count == rows {
        assert(start * d == 0) by (nonlinear_arith)
            requires
                start == 0,
        ;
    } else {
        let tail = if start > 0 {
            super::plan::last_channels(flat, 1, start as u32, (rows - start) as u32, d as u32)
        } else {
            flat
        };
        assert(flat.args =~= seq![x]);
        assert(origin(flat, start * d + at) == origin(x, start * d + at));
        let left = (rows - start) as nat;
        assert(0 <= at < left * d) by (nonlinear_arith)
            requires
                0 <= at < count * d,
                count <= left,
        ;
        assert(origin(tail, at) == origin(x, start * d + at)) by {
            if start > 0 {
                lemma_within(at, (left * d) as int);
                let whole = ((start as u32 + left as u32) * d as u32) as int;
                assert((at / (left * d) as int) * whole == 0) by (nonlinear_arith)
                    requires
                        at / (left * d) as int == 0,
                ;
                assert(tail.args =~= seq![flat]);
            } else {
                assert(start * d == 0) by (nonlinear_arith)
                    requires
                        start == 0,
                ;
            }
        }
        let kept = if count < left {
            super::plan::first_channels(
                tail,
                1,
                count as u32,
                (left - count) as u32,
                d as u32,
            )
        } else {
            tail
        };
        assert(origin(kept, at) == origin(tail, at)) by {
            if count < left {
                lemma_within(at, (count * d) as int);
                let whole = ((count as u32 + (left - count) as u32) * d as u32) as int;
                assert((at / (count * d) as int) * whole == 0) by (nonlinear_arith)
                    requires
                        at / (count * d) as int == 0,
                ;
                assert(kept.args =~= seq![tail]);
            }
        }
        assert(super::plan::reshaped(kept, seq![count, d]).args =~= seq![kept]);
    }
}

proof fn lemma_stacked_flat(
    parts: Seq<(super::plan::Expr, nat)>,
    d: nat,
    upto: nat,
    k: int,
    at: int,
)
    requires
        0 <= k < upto <= parts.len(),
        rows_below(parts, upto) <= u32::MAX,
        d <= u32::MAX,
        0 <= at < parts[k].1 * d,
    ensures
        origin(stacked_flat(parts, d, upto), rows_below(parts, k as nat) * d + at) == origin(
            parts[k].0,
            at,
        ),
    decreases upto,
{
    let last = parts[upto - 1];
    let flat = super::plan::reshaped(last.0, seq![last.1 * d]);
    assert(flat.args =~= seq![last.0]);
    let here = rows_below(parts, k as nat);
    if upto == 1 {
        assert(here * d == 0) by (nonlinear_arith)
            requires
                here == 0,
        ;
    } else {
        let before = stacked_flat(parts, d, (upto - 1) as nat);
        let rows = rows_below(parts, (upto - 1) as nat);
        let whole = (rows + last.1) * d;
        let pos = here * d + at;
        lemma_rows_below_grows(parts, (k + 1) as nat, upto);
        assert(0 <= pos < whole) by (nonlinear_arith)
            requires
                pos == here * d + at,
                0 <= at < parts[k].1 * d,
                here + parts[k].1 <= rows + last.1,
                whole == (rows + last.1) * d,
                here >= 0,
                d >= 0,
        ;
        lemma_within(pos, whole as int);
        assert((rows as u32 + last.1 as u32) * d as u32 == whole);
        let all = stacked_flat(parts, d, upto);
        assert(all.args =~= seq![before, flat]);
        let first = (rows as u32 * d as u32) as int;
        let second = (last.1 as u32 * d as u32) as int;
        assert((pos / whole as int) * first == 0 && (pos / whole as int) * second == 0)
            by (nonlinear_arith)
            requires
                pos / whole as int == 0,
        ;
        if k < upto - 1 {
            lemma_rows_below_grows(parts, (k + 1) as nat, (upto - 1) as nat);
            assert(pos < first) by (nonlinear_arith)
                requires
                    pos == here * d + at,
                    at < parts[k].1 * d,
                    here + parts[k].1 <= rows,
                    first == rows * d,
                    d >= 0,
            ;
            lemma_stacked_flat(parts, d, (upto - 1) as nat, k, at);
            assert(origin(all, pos) == origin(before, pos));
        } else {
            assert(here == rows);
            assert(first == rows * d);
            assert(origin(all, pos) == origin(flat, at));
        }
    }
}

/// Stacking stacks: element `(i, j)` of part `k` is element
/// `(rows before part k + i, j)` of the result.
pub proof fn law_stack_keeps_parts(
    parts: Seq<(super::plan::Expr, nat)>,
    d: nat,
    k: int,
    i: int,
    j: int,
)
    requires
        0 <= k < parts.len(),
        rows_below(parts, parts.len()) <= u32::MAX,
        d <= u32::MAX,
        0 <= i < parts[k].1,
        0 <= j < d,
    ensures
        origin(stacked(parts, d), (rows_below(parts, k as nat) + i) * d + j) == origin(
            parts[k].0,
            i * d + j,
        ),
{
    let at = i * d + j;
    let here = rows_below(parts, k as nat);
    assert((here + i) * d + j == here * d + at) by (nonlinear_arith)
        requires
            at == i * d + j,
    ;
    assert(0 <= at < parts[k].1 * d) by (nonlinear_arith)
        requires
            0 <= i < parts[k].1,
            0 <= j < d,
            at == i * d + j,
    ;
    if parts.len() == 1 {
        assert(here * d == 0) by (nonlinear_arith)
            requires
                here == 0,
        ;
        assert(stacked(parts, d).args =~= seq![parts[0].0]);
    } else {
        lemma_stacked_flat(parts, d, parts.len(), k, at);
        assert(stacked(parts, d).args =~= seq![stacked_flat(parts, d, parts.len())]);
    }
}

/// An appended column stands at the end of every row.
pub proof fn law_column_ends_the_rows(
    x: super::plan::Expr,
    column: super::plan::Expr,
    rows: nat,
    d: nat,
    i: int,
    j: int,
)
    requires
        rows <= u32::MAX,
        d < u32::MAX,
        0 <= i < rows,
        0 <= j <= d,
    ensures
        origin(widened(x, column, rows, d), i * (d + 1) + j) == if j < d {
            origin(x, i * d + j)
        } else {
            origin(column, i)
        },
{
    let at = i * (d + 1) + j;
    let x_flat = super::plan::reshaped(x, seq![rows * d]);
    let column_flat = super::plan::reshaped(column, seq![rows]);
    let both = super::plan::joined(x_flat, column_flat, rows as u32, d as u32, 1, 1);
    assert(x_flat.args =~= seq![x]);
    assert(column_flat.args =~= seq![column]);
    assert(both.args =~= seq![x_flat, column_flat]);
    assert(widened(x, column, rows, d).args =~= seq![both]);
    vstd::arithmetic::div_mod::lemma_fundamental_div_mod_converse(at, d as int + 1, i, j);
    assert((d as u32 + 1u32) * 1u32 == d + 1);
    assert(i * (d * 1) + j == i * d + j && i * (1 * 1) + j - d * 1 == i + j - d)
        by (nonlinear_arith);
    assert(origin(widened(x, column, rows, d), at) == origin(both, at));
    if j < d {
        assert(origin(both, at) == origin(x_flat, i * d + j));
    } else {
        assert(origin(both, at) == origin(column_flat, i));
    }
}

} // verus!
