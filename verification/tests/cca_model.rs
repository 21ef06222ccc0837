//! The retrofit model as a plan: run on the host, and laid down on the engine.
//!
//! These cover the two claims a retrofit rests on:
//!
//! 1. At initialisation the CCA block is **exactly** the identity, so the
//!    frozen backbone's calibration survives the first forward pass.
//! 2. Only the neighbour encoder, the CCA blocks, and the gates receive
//!    gradients.

use anaphora::config::CcaConfig;
use anaphora::corpus::{build_corpus, training_sequences, Document, HashedBagEmbedder};
use anaphora::eval::{EvalReport, EvalRun, Evaluator, NeighbourCondition};
use anaphora::generate::{decode_token_ids, fill_neighbour_inputs, generate};
use anaphora::loss::MaskedDiffusionLoss;
use anaphora::model::backbone::{Backbone, BackboneConfig, Freezing};
use anaphora::model::cca::input_names;
use anaphora::model::encoder::{EncoderScope, NeighbourEncoderConfig};
use anaphora::model::gate::GateActivation;
use anaphora::model::plan::{Node, NodeId, Op, Plan};
use anaphora::model::{BuildError, CcaModel, ModelConfig, NeighbourInput};
use anaphora::play::graphs::{generation_graph, pretrain_graph, retrofit_graph};
use anaphora::retrieval::corpus::{DocumentId, NeighbourCorpus};
use anaphora::retrieval::index::ExactIndex;
use anaphora::retrieval::leakage::LeakageGuard;
use anaphora::retrieval::Neighbours;
use anaphora::sample::{Denoiser, RetrievalContext, SamplingConfig};
use anaphora::schedule::NoiseLevel;
use anaphora::train::{
    NoiseSampler, Optimizer, RetrievalSources, Rng, Trainer, TrainingConfig,
};
use anaphora::view::{CleanSequence, IdSource, MaskToken, NoisedView};
use anaphora::Binary32;
use std::collections::HashMap;

const SEQ: usize = 32;
const CHUNK: usize = 8;
const K: usize = 2;
const R: usize = 8;
const HEADS: usize = 2;
const HEAD_DIM: usize = 16;
const VOCAB: usize = 64;

fn b(v: f32) -> Binary32 {
    Binary32::from_bits(v.to_bits())
}

fn f(x: Binary32) -> f32 {
    f32::from_bits(x.to_bits())
}

fn floats(v: &[Binary32]) -> Vec<f32> {
    v.iter().map(|&x| f(x)).collect()
}

/// What a plan is fed.
#[derive(Default)]
struct Feed {
    numbers: HashMap<String, Vec<f32>>,
    ids: HashMap<String, Vec<u32>>,
}

impl Feed {
    fn set(&mut self, name: &str, values: Vec<f32>) {
        self.numbers.insert(name.to_string(), values);
    }
    fn set_ids(&mut self, name: &str, values: Vec<u32>) {
        self.ids.insert(name.to_string(), values);
    }
}

fn sigmoid(x: f32) -> f32 {
    1.0 / (1.0 + (-x).exp())
}

fn matmul(x: &[f32], y: &[f32], rows: usize, inner: usize, cols: usize) -> Vec<f32> {
    let mut out = vec![0.0f32; rows * cols];
    for i in 0..rows {
        for k in 0..inner {
            let a = x[i * inner + k];
            for j in 0..cols {
                out[i * cols + j] += a * y[k * cols + j];
            }
        }
    }
    out
}

fn attention(
    q: &[f32],
    k: &[f32],
    v: &[f32],
    q_rows: usize,
    kv_rows: usize,
    heads: usize,
    kv_heads: usize,
    dim: usize,
) -> Vec<f32> {
    let mut out = vec![0.0f32; q_rows * heads * dim];
    for h in 0..heads {
        let g = h * kv_heads / heads;
        for i in 0..q_rows {
            let q_at = i * heads * dim + h * dim;
            let scores: Vec<f32> = (0..kv_rows)
                .map(|j| {
                    let k_at = j * kv_heads * dim + g * dim;
                    let dot: f32 = (0..dim).map(|c| q[q_at + c] * k[k_at + c]).sum();
                    dot / (dim as f32).sqrt()
                })
                .collect();
            let top = scores.iter().fold(f32::NEG_INFINITY, |a, &s| a.max(s));
            let weights: Vec<f32> = scores.iter().map(|s| (s - top).exp()).collect();
            let sum: f32 = weights.iter().sum();
            for c in 0..dim {
                out[q_at + c] = (0..kv_rows)
                    .map(|j| weights[j] / sum * v[j * kv_heads * dim + g * dim + c])
                    .sum();
            }
        }
    }
    out
}

/// The value of one node, given those of the nodes before it.
fn value(node: &Node, done: &[Vec<f32>], nodes: &[Node], feed: &Feed) -> Vec<f32> {
    let arg = |i: usize| -> &Vec<f32> { &done[node.inputs[i]] };
    let shape = |i: usize| -> &Vec<usize> { &nodes[node.inputs[i]].shape };
    match node.op {
        Op::Input => {
            if node.is_ids {
                feed.ids[&node.source].iter().map(|&x| x as f32).collect()
            } else {
                feed.numbers[&node.source].clone()
            }
        }
        Op::Parameter => feed.numbers[&node.source].clone(),
        Op::Constant => floats(&node.data),
        Op::Embedding => {
            let width = shape(1)[1];
            arg(0)
                .iter()
                .flat_map(|&id| arg(1)[id as usize * width..(id as usize + 1) * width].to_vec())
                .collect()
        }
        Op::MatMul => matmul(arg(0), arg(1), shape(0)[0], shape(0)[1], shape(1)[1]),
        Op::Add => arg(0).iter().zip(arg(1)).map(|(x, y)| x + y).collect(),
        Op::Mul => arg(0).iter().zip(arg(1)).map(|(x, y)| x * y).collect(),
        Op::BiasAdd => {
            let width = shape(1)[0];
            arg(0)
                .iter()
                .enumerate()
                .map(|(i, x)| x + arg(1)[i % width])
                .collect()
        }
        Op::Silu => arg(0).iter().map(|&x| x * sigmoid(x)).collect(),
        Op::Sigmoid => arg(0).iter().map(|&x| sigmoid(x)).collect(),
        Op::Tanh => arg(0).iter().map(|x| x.tanh()).collect(),
        Op::SwiGlu => arg(0)
            .iter()
            .zip(arg(1))
            .map(|(&x, y)| x * sigmoid(x) * y)
            .collect(),
        Op::RmsNorm { eps } => {
            let width = shape(0)[1];
            arg(0)
                .chunks(width)
                .flat_map(|row| {
                    let mean: f32 = row.iter().map(|x| x * x).sum::<f32>() / width as f32;
                    let scale = 1.0 / (mean + f(eps)).sqrt();
                    row.iter()
                        .zip(arg(1))
                        .map(|(x, w)| x * scale * w)
                        .collect::<Vec<f32>>()
                })
                .collect()
        }
        Op::Rope { theta, head_dim } => {
            let width = shape(0)[1];
            let dim = head_dim as usize;
            let mut out = arg(0).clone();
            for (pos, row) in out.chunks_mut(width).enumerate() {
                for head in row.chunks_mut(dim) {
                    for i in 0..dim / 2 {
                        let angle =
                            pos as f32 / f(theta).powf(2.0 * i as f32 / dim as f32);
                        let (x, y) = (head[i], head[i + dim / 2]);
                        head[i] = x * angle.cos() - y * angle.sin();
                        head[i + dim / 2] = x * angle.sin() + y * angle.cos();
                    }
                }
            }
            out
        }
        Op::MultiHeadAttn {
            num_heads,
            num_kv_heads,
            head_dim,
            ..
        } => attention(
            arg(0),
            arg(1),
            arg(2),
            shape(0)[0],
            shape(1)[0],
            num_heads as usize,
            num_kv_heads as usize,
            head_dim as usize,
        ),
        Op::Reshape | Op::StopGradient => arg(0).clone(),
        Op::Concat {
            batch,
            channels_a,
            channels_b,
            spatial,
        } => {
            let (a, c) = (
                (channels_a * spatial) as usize,
                (channels_b * spatial) as usize,
            );
            (0..batch as usize)
                .flat_map(|n| {
                    let mut part = arg(0)[n * a..(n + 1) * a].to_vec();
                    part.extend_from_slice(&arg(1)[n * c..(n + 1) * c]);
                    part
                })
                .collect()
        }
        Op::SplitA {
            batch,
            channels_a,
            channels_b,
            spatial,
        } => {
            let total = ((channels_a + channels_b) * spatial) as usize;
            let kept = (channels_a * spatial) as usize;
            (0..batch as usize)
                .flat_map(|n| arg(0)[n * total..n * total + kept].to_vec())
                .collect()
        }
        Op::SplitB {
            batch,
            channels_a,
            channels_b,
            spatial,
        } => {
            let total = ((channels_a + channels_b) * spatial) as usize;
            let dropped = (channels_a * spatial) as usize;
            (0..batch as usize)
                .flat_map(|n| arg(0)[n * total + dropped..(n + 1) * total].to_vec())
                .collect()
        }
        Op::BroadcastInner { inner } => arg(0)
            .iter()
            .flat_map(|&x| vec![x; inner as usize])
            .collect(),
        Op::CrossEntropy => {
            let width = shape(0)[1];
            let rows = shape(0)[0];
            let total: f32 = arg(0)
                .chunks(width)
                .zip(arg(1).chunks(width))
                .map(|(logits, labels)| {
                    let top = logits.iter().fold(f32::NEG_INFINITY, |a, &x| a.max(x));
                    let sum: f32 = logits.iter().map(|x| (x - top).exp()).sum();
                    let log_sum = top + sum.ln();
                    labels
                        .iter()
                        .zip(logits)
                        .map(|(w, x)| w * (log_sum - x))
                        .sum::<f32>()
                })
                .sum();
            vec![total / rows as f32]
        }
    }
}

/// The values of all nodes of a plan, on the host.
fn values(plan: &Plan, feed: &Feed) -> Vec<Vec<f32>> {
    let nodes = plan.nodes();
    let mut done: Vec<Vec<f32>> = Vec::new();
    for node in nodes {
        let v = value(node, &done, nodes, feed);
        assert_eq!(v.len(), node.shape.iter().product::<usize>());
        done.push(v);
    }
    done
}

/// Run a plan on the host, and read its output.
fn run(plan: &Plan, feed: &Feed) -> Vec<f32> {
    values(plan, feed)[plan.outputs()[0].0].clone()
}

fn add_to(sum: &mut [f32], part: &[f32]) {
    for (s, p) in sum.iter_mut().zip(part) {
        *s += p;
    }
}

fn transposed(x: &[f32], rows: usize, cols: usize) -> Vec<f32> {
    let mut out = vec![0.0f32; x.len()];
    for i in 0..rows {
        for j in 0..cols {
            out[j * rows + i] = x[i * cols + j];
        }
    }
    out
}

/// What attention hands back to its queries, keys and values.
fn attention_grads(
    grad: &[f32],
    qkv: [&[f32]; 3],
    q_rows: usize,
    kv_rows: usize,
    heads: usize,
    kv_heads: usize,
    dim: usize,
) -> [Vec<f32>; 3] {
    let [q, k, v] = qkv;
    let mut out = [vec![0.0; q.len()], vec![0.0; k.len()], vec![0.0; v.len()]];
    let root = (dim as f32).sqrt();
    for h in 0..heads {
        let g = h * kv_heads / heads;
        for i in 0..q_rows {
            let at = i * heads * dim + h * dim;
            let kv_at = |j: usize| j * kv_heads * dim + g * dim;
            let dot = |x: &[f32], y: &[f32]| -> f32 { x.iter().zip(y).map(|(a, c)| a * c).sum() };
            let scores: Vec<f32> = (0..kv_rows)
                .map(|j| dot(&q[at..at + dim], &k[kv_at(j)..kv_at(j) + dim]) / root)
                .collect();
            let top = scores.iter().fold(f32::NEG_INFINITY, |a, &s| a.max(s));
            let sum: f32 = scores.iter().map(|s| (s - top).exp()).sum();
            let weights: Vec<f32> = scores.iter().map(|s| (s - top).exp() / sum).collect();
            let pulls: Vec<f32> = (0..kv_rows)
                .map(|j| dot(&grad[at..at + dim], &v[kv_at(j)..kv_at(j) + dim]))
                .collect();
            let shared = dot(&weights, &pulls);
            for j in 0..kv_rows {
                let ds = weights[j] * (pulls[j] - shared) / root;
                for c in 0..dim {
                    out[2][kv_at(j) + c] += weights[j] * grad[at + c];
                    out[0][at + c] += ds * k[kv_at(j) + c];
                    out[1][kv_at(j) + c] += ds * q[at + c];
                }
            }
        }
    }
    out
}

/// What a node with gradient `grad` hands back to each of its operands.
fn operand_grads(node: &Node, grad: &[f32], done: &[Vec<f32>], nodes: &[Node]) -> Vec<Vec<f32>> {
    let arg = |i: usize| -> &Vec<f32> { &done[node.inputs[i]] };
    let shape = |i: usize| -> &Vec<usize> { &nodes[node.inputs[i]].shape };
    let each = |slope: &dyn Fn(f32) -> f32| -> Vec<f32> {
        arg(0).iter().zip(grad).map(|(&x, g)| g * slope(x)).collect()
    };
    match node.op {
        Op::Input | Op::Parameter | Op::Constant | Op::StopGradient => Vec::new(),
        Op::Embedding => {
            let width = shape(1)[1];
            let mut table = vec![0.0f32; arg(1).len()];
            for (row, &id) in arg(0).iter().enumerate() {
                let at = id as usize * width;
                add_to(&mut table[at..at + width], &grad[row * width..(row + 1) * width]);
            }
            vec![vec![0.0; arg(0).len()], table]
        }
        Op::MatMul => {
            let (rows, inner, cols) = (shape(0)[0], shape(0)[1], shape(1)[1]);
            vec![
                matmul(grad, &transposed(arg(1), inner, cols), rows, cols, inner),
                matmul(&transposed(arg(0), rows, inner), grad, inner, rows, cols),
            ]
        }
        Op::Add => vec![grad.to_vec(), grad.to_vec()],
        Op::Mul => vec![
            arg(1).iter().zip(grad).map(|(y, g)| y * g).collect(),
            arg(0).iter().zip(grad).map(|(x, g)| x * g).collect(),
        ],
        Op::BiasAdd => {
            let mut bias = vec![0.0f32; shape(1)[0]];
            for row in grad.chunks(shape(1)[0]) {
                add_to(&mut bias, row);
            }
            vec![grad.to_vec(), bias]
        }
        Op::Silu => vec![each(&|x| sigmoid(x) * (1.0 + x * (1.0 - sigmoid(x))))],
        Op::Sigmoid => vec![each(&|x| sigmoid(x) * (1.0 - sigmoid(x)))],
        Op::Tanh => vec![each(&|x| 1.0 - x.tanh() * x.tanh())],
        Op::SwiGlu => {
            let gate = each(&|x| sigmoid(x) * (1.0 + x * (1.0 - sigmoid(x))));
            vec![
                gate.iter().zip(arg(1)).map(|(g, y)| g * y).collect(),
                each(&|x| x * sigmoid(x)),
            ]
        }
        Op::RmsNorm { eps } => {
            let width = shape(0)[1];
            let mut below = Vec::new();
            let mut scale_grad = vec![0.0f32; width];
            for (row, g) in arg(0).chunks(width).zip(grad.chunks(width)) {
                let square: f32 = row.iter().map(|x| x * x).sum::<f32>() / width as f32;
                let scale = 1.0 / (square + f(eps)).sqrt();
                let weighted: Vec<f32> = g.iter().zip(arg(1)).map(|(a, w)| a * w).collect();
                let along: f32 = weighted.iter().zip(row).map(|(a, x)| a * x).sum();
                let pull = along * scale * scale * scale / width as f32;
                for c in 0..width {
                    below.push(weighted[c] * scale - row[c] * pull);
                    scale_grad[c] += g[c] * row[c] * scale;
                }
            }
            vec![below, scale_grad]
        }
        Op::Rope { theta, head_dim } => {
            let (width, dim) = (shape(0)[1], head_dim as usize);
            let mut out = grad.to_vec();
            for (pos, row) in out.chunks_mut(width).enumerate() {
                for head in row.chunks_mut(dim) {
                    for i in 0..dim / 2 {
                        let angle = pos as f32 / f(theta).powf(2.0 * i as f32 / dim as f32);
                        let (x, y) = (head[i], head[i + dim / 2]);
                        head[i] = x * angle.cos() + y * angle.sin();
                        head[i + dim / 2] = y * angle.cos() - x * angle.sin();
                    }
                }
            }
            vec![out]
        }
        Op::MultiHeadAttn {
            num_heads,
            num_kv_heads,
            head_dim,
            ..
        } => attention_grads(
            grad,
            [arg(0), arg(1), arg(2)],
            shape(0)[0],
            shape(1)[0],
            num_heads as usize,
            num_kv_heads as usize,
            head_dim as usize,
        )
        .to_vec(),
        Op::Reshape => vec![grad.to_vec()],
        Op::Concat {
            channels_a,
            channels_b,
            spatial,
            ..
        } => {
            let whole = ((channels_a + channels_b) * spatial) as usize;
            let first = (channels_a * spatial) as usize;
            let parts = grad.chunks(whole);
            vec![
                parts.clone().flat_map(|p| p[..first].to_vec()).collect(),
                parts.flat_map(|p| p[first..].to_vec()).collect(),
            ]
        }
        Op::SplitA {
            channels_a,
            channels_b,
            spatial,
            ..
        } => vec![grad
            .chunks((channels_a * spatial) as usize)
            .flat_map(|p| [p.to_vec(), vec![0.0; (channels_b * spatial) as usize]].concat())
            .collect()],
        Op::SplitB {
            channels_a,
            channels_b,
            spatial,
            ..
        } => vec![grad
            .chunks((channels_b * spatial) as usize)
            .flat_map(|p| [vec![0.0; (channels_a * spatial) as usize], p.to_vec()].concat())
            .collect()],
        Op::BroadcastInner { inner } => vec![grad
            .chunks(inner as usize)
            .map(|p| p.iter().sum())
            .collect()],
        Op::CrossEntropy => {
            let (rows, width) = (shape(0)[0], shape(0)[1]);
            let below = arg(0)
                .chunks(width)
                .zip(arg(1).chunks(width))
                .flat_map(|(logits, labels)| {
                    let top = logits.iter().fold(f32::NEG_INFINITY, |a, &x| a.max(x));
                    let sum: f32 = logits.iter().map(|x| (x - top).exp()).sum();
                    let total: f32 = labels.iter().sum();
                    logits
                        .iter()
                        .zip(labels)
                        .map(|(x, w)| {
                            ((x - top).exp() / sum * total - w) * grad[0] / rows as f32
                        })
                        .collect::<Vec<f32>>()
                })
                .collect();
            vec![below, vec![0.0; arg(1).len()]]
        }
    }
}

/// The output of a plan, and its gradient for every parameter.
fn gradients(plan: &Plan, feed: &Feed) -> (f32, HashMap<String, Vec<f32>>) {
    let nodes = plan.nodes();
    let done = values(plan, feed);
    let mut grads: Vec<Vec<f32>> = done.iter().map(|v| vec![0.0; v.len()]).collect();
    let output = plan.outputs()[0].0;
    grads[output] = vec![1.0];
    let mut found = HashMap::new();
    for (i, node) in nodes.iter().enumerate().rev() {
        let grad = grads[i].clone();
        let parts = operand_grads(node, &grad, &done, nodes);
        for (&input, part) in node.inputs.iter().zip(&parts) {
            add_to(&mut grads[input], part);
        }
        if matches!(node.op, Op::Parameter) {
            found.insert(node.source.clone(), grad);
        }
    }
    (done[output][0], found)
}

/// Lay a plan down on the engine's own graph, node by node, and hold every
/// shape to the engine's.
fn lower(plan: &Plan) -> meganeura::Graph {
    let mut g = meganeura::Graph::new();
    let mut ids: Vec<meganeura::NodeId> = Vec::new();
    for node in plan.nodes() {
        let arg = |i: usize| ids[node.inputs[i]];
        let id = match node.op {
            Op::Input if node.is_ids => g.input_u32(&node.source, &node.shape),
            Op::Input => g.input(&node.source, &node.shape),
            Op::Parameter => g.parameter(&node.source, &node.shape),
            Op::Constant => g.constant(floats(&node.data), &node.shape),
            Op::Embedding => g.embedding(arg(0), arg(1)),
            Op::MatMul => g.matmul(arg(0), arg(1)),
            Op::Add => g.add(arg(0), arg(1)),
            Op::Mul => g.mul(arg(0), arg(1)),
            Op::BiasAdd => g.bias_add(arg(0), arg(1)),
            Op::Silu => g.silu(arg(0)),
            Op::Sigmoid => g.sigmoid(arg(0)),
            Op::Tanh => g.tanh(arg(0)),
            Op::SwiGlu => g.swiglu(arg(0), arg(1)),
            Op::RmsNorm { eps } => g.rms_norm(arg(0), arg(1), f(eps)),
            Op::Rope { theta, head_dim } => g.rope(arg(0), f(theta), head_dim),
            Op::MultiHeadAttn {
                num_heads,
                num_kv_heads,
                head_dim,
                is_cross,
            } => g.multi_head_attn(
                arg(0),
                arg(1),
                arg(2),
                num_heads,
                num_kv_heads,
                head_dim,
                is_cross,
            ),
            Op::Reshape => g.reshape(arg(0), &node.shape),
            Op::Concat {
                batch,
                channels_a,
                channels_b,
                spatial,
            } => g.concat(arg(0), arg(1), batch, channels_a, channels_b, spatial),
            Op::SplitA {
                batch,
                channels_a,
                channels_b,
                spatial,
            } => g.split_a(arg(0), batch, channels_a, channels_b, spatial),
            Op::SplitB {
                batch,
                channels_a,
                channels_b,
                spatial,
            } => g.split_b(arg(0), batch, channels_a, channels_b, spatial),
            Op::BroadcastInner { inner } => g.broadcast_inner(arg(0), inner as usize),
            Op::StopGradient => g.stop_gradient(arg(0)),
            Op::CrossEntropy => g.cross_entropy_loss(arg(0), arg(1)),
        };
        assert_eq!(g.node(id).ty.shape, node.shape, "{:?}", node.op);
        ids.push(id);
    }
    let outputs = plan.outputs().iter().map(|o| ids[o.0]).collect();
    g.set_outputs(outputs);
    g
}

/// Which parameters the engine's own differentiation gives a gradient.
fn params_with_gradient(plan: &Plan) -> Vec<String> {
    let forward = lower(plan);
    let backward = meganeura::autodiff::differentiate(&forward);
    let grads = &backward.outputs()[backward.num_user_outputs()..];
    let params: Vec<&Node> = plan
        .nodes()
        .iter()
        .filter(|n| matches!(n.op, Op::Parameter))
        .collect();
    assert_eq!(grads.len(), params.len());
    params
        .iter()
        .zip(grads)
        .filter(|(p, &g)| {
            let node = backward.node(g);
            node.ty.shape == p.shape && !node.inputs.is_empty()
        })
        .map(|(p, _)| p.source.clone())
        .collect()
}

fn cca_config() -> CcaConfig {
    // CCA after backbone layers 1 and 3.
    CcaConfig::new(SEQ, CHUNK, K, R, HEADS, HEADS, HEAD_DIM, 2, 1).expect("valid shapes")
}

fn backbone_config() -> BackboneConfig {
    BackboneConfig {
        vocab_size: VOCAB,
        num_layers: 4,
        num_heads: HEADS as u32,
        num_kv_heads: HEADS as u32,
        head_dim: HEAD_DIM as u32,
        intermediate_size: 64,
        rope_theta: b(10000.0),
        rms_norm_eps: b(1e-5),
    }
}

fn encoder_config() -> NeighbourEncoderConfig {
    NeighbourEncoderConfig {
        vocab_size: VOCAB,
        num_layers: 1,
        num_heads: HEADS as u32,
        num_kv_heads: HEADS as u32,
        head_dim: HEAD_DIM as u32,
        intermediate_size: 64,
        scope: EncoderScope::PerNeighbour,
    }
}

fn model_config(activation: GateActivation, neighbours: NeighbourInput) -> ModelConfig {
    ModelConfig {
        cca: cca_config(),
        backbone: backbone_config(),
        encoder: encoder_config(),
        activation,
        neighbours,
    }
}

/// Deterministic parameter values keyed by name, so two graphs that share a
/// parameter name get bit-identical weights for it.
fn param_values(name: &str, len: usize) -> Vec<f32> {
    let mut state = name.bytes().fold(0x2545_F491_4F6C_DD1Du64, |acc, b| {
        (acc ^ b as u64).wrapping_mul(0x0100_0000_01B3)
    });
    let is_norm = name.contains("norm");
    (0..len)
        .map(|_| {
            state ^= state << 13;
            state ^= state >> 7;
            state ^= state << 17;
            let unit = ((state >> 40) as f32 / 16_777_216.0) - 0.5; // ~[-0.5, 0.5)
            if is_norm {
                1.0 + unit * 0.1
            } else {
                unit * 0.2
            }
        })
        .collect()
}

fn fill_params(feed: &mut Feed, plan: &Plan) {
    for node in plan.nodes() {
        if matches!(node.op, Op::Parameter) {
            let len = node.shape.iter().product();
            feed.set(&node.source, param_values(&node.source, len));
        }
    }
}

fn zero_params(feed: &mut Feed, names: &[String]) {
    for name in names {
        let len = feed.numbers[name].len();
        feed.set(name, vec![0.0; len]);
    }
}

fn token_ids() -> Vec<u32> {
    (0..SEQ).map(|i| ((i * 7 + 3) % VOCAB) as u32).collect()
}

/// Build the retrofit model and its logits, with neighbours fed as cached KV.
fn build_model(activation: GateActivation) -> (Plan, CcaModel) {
    generation_graph(model_config(activation, NeighbourInput::Cached))
}

/// The same backbone with no CCA blocks at all: the reference.
fn build_bare_backbone() -> Plan {
    let mut g = Plan::new();
    let cfg = backbone_config();
    let backbone = Backbone::new(&mut g, "backbone", cfg);
    let token_ids = g.input_u32("token_ids", &[SEQ]);
    let mut x = backbone.embed(&mut g, token_ids);
    for layer in 0..cfg.num_layers {
        x = backbone.layer(&mut g, x, layer);
    }
    let logits = backbone.head(&mut g, x);
    g.set_outputs(vec![logits]);
    g
}

fn cca_feed(plan: &Plan, mask: f32, kv: &str) -> Feed {
    let cfg = cca_config();
    let kv_rows = cfg.num_chunks() * cfg.neighbour_kv_rows();
    let mut feed = Feed::default();
    fill_params(&mut feed, plan);
    feed.set_ids("token_ids", token_ids());
    feed.set(input_names::T_COL, vec![0.5; SEQ]);
    feed.set(input_names::RETRIEVAL_MASK, vec![mask; SEQ]);
    feed.set(
        input_names::NEIGHBOUR_KV,
        param_values(kv, kv_rows * cfg.model_dim()),
    );
    feed
}

fn run_model(activation: GateActivation) -> Vec<f32> {
    let (g, model) = build_model(activation);
    // Every chunk retrieved, so nothing is masked out: the identity must hold
    // because of the soft gate, not because retrieval was switched off.
    let mut feed = cca_feed(&g, 1.0, "neighbour_kv_probe");
    // The retrofit's initialisation: the soft gate's output layer starts at zero.
    zero_params(&mut feed, &model.zero_init_param_names());
    run(&g, &feed)
}

fn run_bare_backbone() -> Vec<f32> {
    let g = build_bare_backbone();
    let mut feed = Feed::default();
    fill_params(&mut feed, &g);
    feed.set_ids("token_ids", token_ids());
    run(&g, &feed)
}

fn assert_matches_backbone(activation: GateActivation, label: &str) {
    let with_cca = run_model(activation);
    let bare = run_bare_backbone();
    assert_eq!(with_cca.len(), bare.len());

    let mut worst = 0.0f32;
    for (i, (a, b)) in with_cca.iter().zip(&bare).enumerate() {
        assert!(a.is_finite(), "{label}: non-finite logit at {i}");
        worst = worst.max((a - b).abs());
    }
    // Not "close enough": a zero gate contributes an exact zero.
    assert!(
        worst < 1e-4,
        "{label}: CCA block is not the identity at init (max |diff| = {worst})"
    );
}

#[test]
fn tanh_gate_is_identity_at_init() {
    // A sigmoid over a zero-initialised last layer gives 0.5, so the block
    // would return h + 0.5*ctx and inject half an untrained cross-attention
    // output into the frozen residual stream. tanh(0) = 0 exactly.
    assert_matches_backbone(GateActivation::Tanh, "tanh");
}

#[test]
fn scaled_sigmoid_gate_is_identity_at_init() {
    // The alternative: keep the soft gate in [0, 1] and multiply by a zero-init
    // learned scalar.
    assert_matches_backbone(GateActivation::ScaledSigmoid, "scaled sigmoid");
}

#[test]
fn only_the_retrieval_path_receives_gradients() {
    let (g, model) = retrofit_graph(model_config(
        GateActivation::Tanh,
        NeighbourInput::Encoded,
    ));
    let with_gradient = params_with_gradient(&g);

    // The frozen backbone: no gradients, so the optimiser never touches it.
    for name in [
        "backbone.embed",
        "backbone.layers.0.q_proj",
        "backbone.layers.3.down_proj",
        "backbone.lm_head",
    ] {
        assert!(
            !with_gradient.iter().any(|n| n == name),
            "{name} is frozen and must not receive a gradient"
        );
    }

    // The three things a retrofit trains.
    let trainable = model.trainable_param_names();
    assert!(
        trainable
            .iter()
            .any(|n| n.starts_with("neighbour_encoder.")),
        "the neighbour encoder must be trainable"
    );
    for name in ["cca.1.q_proj", "cca.1.gate.w1", "cca.3.gate.w2"] {
        assert!(
            trainable.iter().any(|n| n == name),
            "{name} should be listed trainable"
        );
        assert!(
            with_gradient.iter().any(|n| n == name),
            "{name} must receive a gradient"
        );
    }
}

#[test]
fn what_is_listed_trainable_is_what_gets_a_gradient() {
    for activation in [GateActivation::Tanh, GateActivation::ScaledSigmoid] {
        let (g, model) = retrofit_graph(model_config(activation, NeighbourInput::Encoded));
        let mut with_gradient = params_with_gradient(&g);
        let mut trainable = model.trainable_param_names();
        with_gradient.sort();
        trainable.sort();
        assert_eq!(with_gradient, trainable);
        let mut once = trainable.clone();
        once.extend(Backbone::param_names("backbone", backbone_config()));
        once.sort();
        let declared = once.len();
        once.dedup();
        assert_eq!(once.len(), declared, "no name is declared twice");
        for name in model.zero_init_param_names() {
            assert!(trainable.contains(&name));
        }
    }
}

#[test]
fn pretraining_reaches_every_backbone_parameter() {
    let cfg = backbone_config();
    let g = pretrain_graph(cfg, SEQ);
    let mut with_gradient = params_with_gradient(&g);
    let mut names = Backbone::param_names("backbone", cfg);
    with_gradient.sort();
    names.sort();
    assert_eq!(with_gradient, names);
    let mut frozen = Plan::new();
    let backbone = Backbone::with_freezing(&mut frozen, "backbone", cfg, Freezing::Frozen);
    assert_eq!(backbone.num_layers(), 4);
    assert_eq!(backbone.config().vocab_size, VOCAB);
}

fn one_hot_labels() -> Vec<f32> {
    let mut one_hot = vec![0.0f32; SEQ * VOCAB];
    for pos in 0..SEQ {
        one_hot[pos * VOCAB + (pos % VOCAB)] = 1.0;
    }
    one_hot
}

#[test]
fn zero_init_gate_still_learns() {
    // Zero-init is only safe if it does not also zero the gradient. A gate
    // that starts closed and cannot open is a block that never trains, which
    // is what a large negative sigmoid bias would have produced.
    let (g, model) = retrofit_graph(model_config(
        GateActivation::Tanh,
        NeighbourInput::Cached,
    ));
    assert!(params_with_gradient(&g).iter().any(|n| n == "cca.1.gate.w2"));

    let mut feed = cca_feed(&g, 1.0, "neighbour_kv_probe");
    zero_params(&mut feed, &model.zero_init_param_names());
    feed.set("labels", one_hot_labels());
    let name = "cca.1.gate.w2";
    let len = feed.numbers[name].len();
    let step = 0.5f32;
    let mut magnitude = 0.0f32;
    for i in 0..len.min(4) {
        let mut moved = vec![0.0; len];
        moved[i] = step;
        feed.set(name, moved.clone());
        let up = run(&g, &feed)[0];
        moved[i] = -step;
        feed.set(name, moved);
        let down = run(&g, &feed)[0];
        let grad = (up - down) / (2.0 * step);
        assert!(grad.is_finite(), "gate gradient must be finite");
        magnitude += grad.abs();
    }
    assert!(
        magnitude > 0.0,
        "the zero-initialised gate layer must still receive a gradient"
    );
}

#[test]
fn neighbour_content_changes_the_output() {
    // Guards against a vacuous pass of the identity tests above. If the
    // neighbour block were disconnected from the logits, "the CCA block is
    // the identity at init" would hold for the wrong reason, and every
    // retrieval measurement downstream would be reading a constant.
    let (g, _model) = build_model(GateActivation::Tanh);
    // Deliberately NOT zero-initialising the soft gate: the question here is
    // whether the path carries signal when the soft gate is open.
    let with_a = run(&g, &cca_feed(&g, 1.0, "kv_a"));
    let with_b = run(&g, &cca_feed(&g, 1.0, "kv_b"));
    let diff: f32 = with_a
        .iter()
        .zip(&with_b)
        .map(|(x, y)| (x - y).abs())
        .fold(0.0, f32::max);
    assert!(
        diff > 1e-6,
        "different neighbours produced identical logits: the CCA path is not connected"
    );
}

#[test]
fn the_retrieval_mask_gates_the_whole_block() {
    // A chunk that retrieved nothing must contribute nothing, whatever the
    // gate has learned. Attending to a zero-filled key/value block is not the
    // same as not attending.
    let (g, _model) = build_model(GateActivation::Tanh);
    let masked_a = run(&g, &cca_feed(&g, 0.0, "kv_a"));
    let masked_b = run(&g, &cca_feed(&g, 0.0, "kv_b"));
    assert_eq!(
        masked_a, masked_b,
        "with the mask at zero the neighbours must not reach the output"
    );
}

#[test]
fn a_chunk_attends_to_its_own_neighbours_only() {
    // Change the last chunk's key/value rows alone. Up to the first block the
    // residual mixes nothing across chunks that the block did not put there,
    // so with the layers after it removed the other chunks' rows stay put.
    let mut backbone = backbone_config();
    backbone.num_layers = 2;
    let cfg = ModelConfig {
        backbone,
        ..model_config(GateActivation::Tanh, NeighbourInput::Cached)
    };
    let (g, _model) = generation_graph(cfg);
    let mut feed = cca_feed(&g, 1.0, "kv_a");
    let before = run(&g, &feed);
    let mut kv = feed.numbers[input_names::NEIGHBOUR_KV].clone();
    let per_chunk = K * R * HEADS * HEAD_DIM;
    let last = (SEQ / CHUNK - 1) * per_chunk;
    for x in kv[last..].iter_mut() {
        *x += 1.0;
    }
    feed.set(input_names::NEIGHBOUR_KV, kv);
    let after = run(&g, &feed);
    let edge = (SEQ - CHUNK) * VOCAB;
    assert_eq!(before[..edge], after[..edge]);
    assert_ne!(before[edge..], after[edge..]);
}

#[test]
fn every_graph_lays_down_on_the_engine() {
    for scope in [EncoderScope::PerNeighbour, EncoderScope::PerChunk] {
        let encoder = NeighbourEncoderConfig {
            scope,
            ..encoder_config()
        };
        let cfg = ModelConfig {
            encoder,
            ..model_config(GateActivation::ScaledSigmoid, NeighbourInput::Encoded)
        };
        let (g, model) = generation_graph(cfg);
        let lowered = lower(&g);
        assert_eq!(lowered.outputs().len(), 1);
        assert_eq!(model.blocks().len(), 2);
        assert_eq!(model.blocks()[0].layer, 1);
        assert_eq!(model.blocks()[1].layer, 3);
        assert!(model.encoder().is_some());
        assert_eq!(g.outputs(), &[model.logits()][..]);
    }
    let (cached, model) = build_model(GateActivation::Tanh);
    lower(&cached);
    assert!(model.encoder().is_none());
}

#[test]
fn a_model_that_cannot_be_built_says_why() {
    let good = model_config(GateActivation::Tanh, NeighbourInput::Encoded);
    assert_eq!(good.check(), None);
    let mut wide = good;
    wide.backbone.num_heads = 4;
    assert_eq!(wide.check(), Some(BuildError::BackboneWidth));
    let mut narrow = good;
    narrow.encoder.head_dim = 8;
    assert_eq!(narrow.check(), Some(BuildError::EncoderWidth));
    let mut huge = good;
    huge.backbone.head_dim = u32::MAX;
    assert_eq!(huge.check(), Some(BuildError::TooLarge));
    let odd = ModelConfig {
        cca: CcaConfig::new(SEQ, CHUNK, K, R, 2, 2, 15, 2, 1).expect("valid"),
        backbone: BackboneConfig {
            head_dim: 15,
            ..backbone_config()
        },
        encoder: NeighbourEncoderConfig {
            head_dim: 15,
            ..encoder_config()
        },
        activation: GateActivation::Tanh,
        neighbours: NeighbourInput::Encoded,
    };
    assert_eq!(odd.check(), Some(BuildError::OddHead));
}

const MASK: MaskToken = MaskToken(0);
const PAD: u32 = 1;
const SMALL_VOCAB: usize = 48;
const SMALL_SEQ: usize = 16;
const DIM: usize = 32;

fn small_cfg() -> CcaConfig {
    // n=16, m=4 gives l=4, k=2, r=8; d = 2 heads * 16 = 32. CCA after layer 1.
    CcaConfig::new(SMALL_SEQ, 4, 2, 8, 2, 2, 16, 2, 1).expect("valid")
}

fn small_model() -> ModelConfig {
    ModelConfig {
        cca: small_cfg(),
        backbone: BackboneConfig {
            vocab_size: SMALL_VOCAB,
            num_layers: 2,
            num_heads: 2,
            num_kv_heads: 2,
            head_dim: 16,
            intermediate_size: 32,
            rope_theta: b(10000.0),
            rms_norm_eps: b(1e-5),
        },
        encoder: NeighbourEncoderConfig {
            vocab_size: SMALL_VOCAB,
            num_layers: 1,
            num_heads: 2,
            num_kv_heads: 2,
            head_dim: 16,
            intermediate_size: 32,
            scope: EncoderScope::PerNeighbour,
        },
        activation: GateActivation::Tanh,
        neighbours: NeighbourInput::Encoded,
    }
}

fn documents() -> Vec<Document> {
    (0..6u64)
        .map(|d| Document {
            id: DocumentId(d),
            tokens: (0..SMALL_SEQ * 2)
                .map(|i| (2 + (d as usize * 5 + i * 3) % (SMALL_VOCAB - 2)) as u32)
                .collect(),
        })
        .collect()
}

/// Values that vary, with every norm scale at one.
fn seeded(feed: &mut Feed, plan: &Plan, seed: u64, width: f32) {
    for node in plan.nodes() {
        if matches!(node.op, Op::Parameter) {
            let name = &node.source;
            let len: usize = node.shape.iter().product();
            let mixed = name
                .bytes()
                .fold(0u64, |a, b| a.rotate_left(5) ^ u64::from(b));
            let mut rng = Rng::new(seed ^ mixed);
            let is_norm = name.contains("norm");
            let values: Vec<f32> = (0..len)
                .map(|_| {
                    if is_norm {
                        1.0
                    } else {
                        (f(rng.next_f32()) - 0.5) * width
                    }
                })
                .collect();
            feed.set(name, values);
        }
    }
}

fn mean(losses: &[Binary32]) -> f32 {
    (losses.iter().map(|&x| f64::from(f(x))).sum::<f64>() / losses.len() as f64) as f32
}

#[test]
fn the_protocol_runs_and_separates_its_conditions() {
    let cca = small_cfg();
    let mut embedder = HashedBagEmbedder::bigram(DIM, MASK.0);
    let corpus = build_corpus(&documents(), cca, &mut embedder);
    let index = ExactIndex::build(&corpus);
    let guard = LeakageGuard::by_source_document();
    let seqs = training_sequences(&documents(), SMALL_SEQ, PAD, SMALL_SEQ);

    let (g, _model) = retrofit_graph(small_model());
    // Open the soft gate, so the conditions can differ at all: a zero-init gate
    // makes every one of them identical by construction, which is exactly
    // what zero-init is for and exactly wrong here.
    //
    // The weights must also *vary*. Filling every parameter with one constant
    // makes the embedding tables constant, every token then embeds to the
    // same vector, and neighbour content cannot reach the output no matter
    // how the rest of the graph is wired.
    let mut feed = Feed::default();
    seeded(&mut feed, &g, 0x5EED, 0.4);

    let mut evaluator = Evaluator::new(cca, SMALL_VOCAB, MASK, 5);
    let mut sources = RetrievalSources {
        index: &index,
        corpus: &corpus,
        guard: &guard,
        embedder: &mut embedder,
    };
    let levels: Vec<NoiseLevel> = [0.3f32, 0.5, 0.7]
        .iter()
        .map(|&t| NoiseLevel::new(b(t)).unwrap())
        .collect();
    let mut ids = IdSource::new();
    let mut eval = EvalRun::new(
        &evaluator,
        &NeighbourCondition::all(),
        seqs.len(),
        levels.len(),
    );
    while let Some(score) = eval.next(&mut evaluator, &seqs, &levels, &mut sources, &mut ids) {
        feed.set("labels", floats(&score.labels));
        feed.set_ids("token_ids", score.view.tokens().to_vec());
        feed.set(input_names::T_COL, floats(&score.inputs.t_col));
        feed.set(
            input_names::RETRIEVAL_MASK,
            floats(&score.inputs.retrieval_mask),
        );
        feed.set_ids("cca.neighbour_tokens", score.inputs.neighbour_tokens.clone());
        let loss = run(&g, &feed)[0];
        eval.record(&evaluator, &levels, b(loss));
    }
    let report = EvalReport {
        conditions: eval
            .tallies()
            .iter()
            .map(|tally| {
                let bands: Vec<Binary32> = tally.bands.iter().map(|l| b(mean(l))).collect();
                evaluator.report(tally, b(mean(&tally.losses)), &bands)
            })
            .collect(),
    };

    assert_eq!(report.conditions.len(), 4);
    for c in &report.conditions {
        assert!(
            f(c.mean_loss).is_finite(),
            "{:?} produced no number",
            c.condition
        );
    }
    // Different neighbour blocks must actually reach the model. If Real and
    // Ablated agree exactly, the retrieval path is not connected and every
    // downstream number is meaningless.
    let real = f(report.get(NeighbourCondition::Real).unwrap().mean_loss);
    let ablated = f(report.get(NeighbourCondition::Ablated).unwrap().mean_loss);
    let oracle = f(report.get(NeighbourCondition::Oracle).unwrap().mean_loss);
    assert_ne!(real, ablated, "retrieval made no difference at all");
    assert_ne!(oracle, real, "the oracle block made no difference");
}

#[test]
fn the_no_retrieval_baseline_runs_from_the_same_model() {
    // The protocol's gate-zero comparison needs no second model.
    let cca = small_cfg();
    let mut embedder = HashedBagEmbedder::bigram(DIM, MASK.0);
    let corpus = build_corpus(&documents(), cca, &mut embedder);
    let index = ExactIndex::build(&corpus);
    let guard = LeakageGuard::by_source_document();
    let seqs = training_sequences(&documents(), SMALL_SEQ, PAD, SMALL_SEQ);

    let (g, model) = retrofit_graph(small_model());
    let mut feed = Feed::default();
    seeded(&mut feed, &g, 0xB0B, 0.2);
    zero_params(&mut feed, &model.zero_init_param_names());

    let mut trainer = Trainer::new(
        TrainingConfig {
            retrieval_enabled: false,
            ..TrainingConfig::new(cca, SMALL_VOCAB, MASK)
        },
        1,
    );
    let mut sources = RetrievalSources {
        index: &index,
        corpus: &corpus,
        guard: &guard,
        embedder: &mut embedder,
    };
    let mut ids = IdSource::new();
    let mut labels = vec![b(0.0); SMALL_SEQ * SMALL_VOCAB];
    let mut ran = 0;
    for seq in seqs.iter().take(12) {
        let step = trainer
            .prepare(model.encoder().is_some(), seq, &mut sources, &mut ids)
            .expect("well-formed");
        step.labels.apply(&mut labels);
        let loss = match &step.run {
            Some(inputs) => {
                feed.set("labels", floats(&labels));
                feed.set_ids("token_ids", step.view.tokens().to_vec());
                feed.set(input_names::T_COL, floats(&inputs.inputs.t_col));
                feed.set(
                    input_names::RETRIEVAL_MASK,
                    floats(&inputs.inputs.retrieval_mask),
                );
                feed.set_ids(
                    "cca.neighbour_tokens",
                    inputs.inputs.neighbour_tokens.clone(),
                );
                run(&g, &feed)[0]
            }
            None => 0.0,
        };
        if let Some(report) = trainer.complete(&step, b(loss)) {
            assert!(!report.gate_open, "retrieval was disabled");
            assert_eq!(report.chunks_retrieved, 0);
            assert!(f(report.loss).is_finite());
            ran += 1;
        }
    }
    assert!(ran > 0);
}

/// Adam on the host, over the parameters that train.
struct Adam {
    settings: Optimizer,
    moments: HashMap<String, (Vec<f32>, Vec<f32>)>,
    taken: i32,
}

impl Adam {
    fn step(&mut self, feed: &mut Feed, names: &[String], grads: &HashMap<String, Vec<f32>>) {
        self.taken += 1;
        let (rate, beta1, beta2, epsilon) = match self.settings {
            Optimizer::Adam {
                lr,
                beta1,
                beta2,
                eps,
            } => (f(lr), f(beta1), f(beta2), f(eps)),
            Optimizer::Sgd { .. } => unreachable!("an Adam was asked for"),
        };
        for name in names {
            let grad = &grads[name];
            let (first, second) = self
                .moments
                .entry(name.clone())
                .or_insert_with(|| (vec![0.0; grad.len()], vec![0.0; grad.len()]));
            let mut weights = feed.numbers[name].clone();
            for i in 0..grad.len() {
                first[i] = beta1 * first[i] + (1.0 - beta1) * grad[i];
                second[i] = beta2 * second[i] + (1.0 - beta2) * grad[i] * grad[i];
                let m = first[i] / (1.0 - beta1.powi(self.taken));
                let v = second[i] / (1.0 - beta2.powi(self.taken));
                weights[i] -= rate * m / (v.sqrt() + epsilon);
            }
            feed.set(name, weights);
        }
    }
}

#[test]
fn a_training_step_runs_and_reduces_loss() {
    let cca = small_cfg();
    let mut embedder = HashedBagEmbedder::bigram(DIM, MASK.0);
    let corpus = build_corpus(&documents(), cca, &mut embedder);
    let index = ExactIndex::build(&corpus);
    let guard = LeakageGuard::by_source_document();
    let seqs = training_sequences(&documents(), SMALL_SEQ, PAD, SMALL_SEQ);
    assert!(!seqs.is_empty());

    let (g, model) = retrofit_graph(small_model());
    let mut feed = Feed::default();
    seeded(&mut feed, &g, 0xA11CE, 0.2);
    // Without this the retrofit begins by pushing an untrained
    // cross-attention output into the frozen residual stream.
    zero_params(&mut feed, &model.zero_init_param_names());
    let mut adam = Adam {
        settings: Optimizer::adam(b(3e-3)),
        moments: HashMap::new(),
        taken: 0,
    };

    let mut trainer = Trainer::new(
        TrainingConfig {
            // Fixed t keeps the comparison from being dominated by the 1/t
            // weight differing between the two windows.
            noise: NoiseSampler::Fixed(b(0.5)),
            ..TrainingConfig::new(cca, SMALL_VOCAB, MASK)
        },
        0xBEEF,
    );
    let mut sources = RetrievalSources {
        index: &index,
        corpus: &corpus,
        guard: &guard,
        embedder: &mut embedder,
    };
    let mut ids = IdSource::new();
    let mut labels = vec![b(0.0); SMALL_SEQ * SMALL_VOCAB];

    let mut losses = Vec::new();
    let mut retrieved_any = false;
    for i in 0..80 {
        let seq = &seqs[i % seqs.len()];
        let step = trainer
            .prepare(model.encoder().is_some(), seq, &mut sources, &mut ids)
            .expect("step is well-formed");
        step.labels.apply(&mut labels);
        let mut loss = 0.0;
        if let Some(inputs) = &step.run {
            feed.set("labels", floats(&labels));
            feed.set_ids("token_ids", step.view.tokens().to_vec());
            feed.set(input_names::T_COL, floats(&inputs.inputs.t_col));
            feed.set(
                input_names::RETRIEVAL_MASK,
                floats(&inputs.inputs.retrieval_mask),
            );
            feed.set_ids(
                "cca.neighbour_tokens",
                inputs.inputs.neighbour_tokens.clone(),
            );
            let (value, grads) = gradients(&g, &feed);
            loss = value;
            adam.step(&mut feed, &model.trainable_param_names(), &grads);
        }
        if let Some(report) = trainer.complete(&step, b(loss)) {
            assert!(f(report.loss).is_finite(), "loss went non-finite at step {i}");
            assert!(report.scored > 0);
            retrieved_any |= report.chunks_retrieved > 0;
            losses.push(f(report.loss));
        }
    }

    assert!(losses.len() > 40, "most steps should score something");
    assert!(retrieved_any, "the retrieval path never fired");

    let window = 10;
    let first: f32 = losses[..window].iter().sum::<f32>() / window as f32;
    let last: f32 = losses[losses.len() - window..].iter().sum::<f32>() / window as f32;
    assert!(last < first, "loss did not fall: {first:.4} -> {last:.4}");

    // Zero-init is only safe if the soft gate can still open.
    let moved = model
        .zero_init_param_names()
        .iter()
        .any(|name| feed.numbers[name].iter().any(|&x| x != 0.0));
    assert!(moved, "the zero-initialised gate never left zero");
}

#[test]
fn gradients_stop_at_the_backbone() {
    let (g, model) = retrofit_graph(model_config(
        GateActivation::ScaledSigmoid,
        NeighbourInput::Encoded,
    ));
    let mut feed = cca_feed(&g, 1.0, "kv_a");
    let rows = SEQ / CHUNK * K * R;
    feed.set_ids(
        "cca.neighbour_tokens",
        (0..rows).map(|i| (i * 5 % VOCAB) as u32).collect(),
    );
    feed.set("labels", one_hot_labels());
    let (loss, grads) = gradients(&g, &feed);
    assert!(loss.is_finite());
    for name in Backbone::param_names("backbone", backbone_config()) {
        assert!(grads[&name].iter().all(|&x| x == 0.0), "{name} is frozen");
    }
    for name in model.trainable_param_names() {
        assert!(grads[&name].iter().any(|&x| x != 0.0), "{name} must train");
    }

    // Held to a difference quotient, one entry of each kind of weight.
    for name in [
        "neighbour_encoder.layers.0.q_proj",
        "neighbour_encoder.layers.0.attn_norm",
        "neighbour_encoder.layers.0.up_proj",
        "cca.1.k_proj",
        "cca.3.gate.w1",
        "cca.3.gate.alpha",
    ] {
        let at = grads[name]
            .iter()
            .enumerate()
            .fold(0, |best, (i, x)| {
                if x.abs() > grads[name][best].abs() {
                    i
                } else {
                    best
                }
            });
        let weights = feed.numbers[name].clone();
        let mut side = |by: f32| -> f32 {
            let mut moved = weights.clone();
            moved[at] += by;
            feed.set(name, moved);
            run(&g, &feed)[0]
        };
        let slope = (side(1e-2) - side(-1e-2)) / 2e-2;
        feed.set(name, weights.clone());
        let told = grads[name][at];
        assert!(
            (slope - told).abs() < 0.05 * told.abs() + 1e-3,
            "{name}: {told} against {slope}"
        );
    }
}

#[test]
fn unmasked_positions_receive_exactly_zero_gradient() {
    // This is what makes the zero-row trick sound rather than merely
    // convenient: a gradient of `softmax * S - labels` with `S` the sum of the
    // labels is zero on a zero row, not small.
    let (seq, vocab) = (8, 16);
    let mut ids = IdSource::new();
    let clean = CleanSequence::new((0..seq).map(|i| (i + 1) as u32).collect(), &mut ids);
    let level = NoiseLevel::new(b(0.4)).expect("in range");
    let view = clean.mask_with(level, MASK, |i| i % 3 == 0, &mut ids);
    let loss = MaskedDiffusionLoss::new(vocab);
    let mut labels = Vec::new();
    loss.build_labels(&view, &clean, &mut labels)
        .expect("valid");

    // Logits are `identity @ w`, so the gradient of `w` is that of the logits.
    let mut g = Plan::new();
    let x = g.input("identity", &[seq, seq]);
    let w = g.parameter("w", &[seq, vocab]);
    let logits = g.matmul(x, w);
    let label_input = g.input("labels", &[seq, vocab]);
    let node = g.cross_entropy_loss(logits, label_input);
    g.set_outputs(vec![node]);
    let mut feed = Feed::default();
    let mut identity = vec![0.0f32; seq * seq];
    for i in 0..seq {
        identity[i * seq + i] = 1.0;
    }
    feed.set("identity", identity);
    feed.set(
        "w",
        (0..seq * vocab)
            .map(|i| ((i * 37 % 11) as f32 - 5.0) * 0.3)
            .collect(),
    );
    feed.set("labels", floats(&labels));
    let (_, grads) = gradients(&g, &feed);
    for (pos, row) in grads["w"].chunks(vocab).enumerate() {
        let magnitude: f32 = row.iter().map(|v| v.abs()).sum();
        if view.masked()[pos] {
            assert!(magnitude > 0.0, "masked position {pos} must score");
        } else {
            assert_eq!(magnitude, 0.0, "unmasked position {pos} must not score");
        }
    }
}

/// Runs a plan on the host for every denoising step.
struct HostDenoiser<'a> {
    plan: &'a Plan,
    feed: Feed,
    cca: CcaConfig,
    vocab: usize,
}

impl Denoiser for HostDenoiser<'_> {
    fn vocab_size(&self) -> usize {
        self.vocab
    }
    fn logits(&mut self, view: &NoisedView, neighbours: Option<&Neighbours>) -> Vec<Binary32> {
        let mut mask = Vec::new();
        let mut tokens = Vec::new();
        fill_neighbour_inputs(
            self.cca,
            view.mask_token().0,
            neighbours,
            &mut mask,
            &mut tokens,
        );
        let n = view.len();
        self.feed.set_ids("token_ids", view.tokens().to_vec());
        self.feed
            .set(input_names::T_COL, vec![f(view.noise_level().get()); n]);
        self.feed.set(input_names::RETRIEVAL_MASK, floats(&mask));
        self.feed.set_ids("cca.neighbour_tokens", tokens);
        run(self.plan, &self.feed).iter().map(|&x| b(x)).collect()
    }
    fn exp(&self, x: Binary32) -> Binary32 {
        b(f(x).exp())
    }
}

#[test]
fn generate_keeps_prompt_and_fills_masks() {
    let cca = small_cfg();
    let (g, model) = generation_graph(small_model());
    let mut feed = Feed::default();
    fill_params(&mut feed, &g);
    zero_params(&mut feed, &model.zero_init_param_names());

    let corpus = NeighbourCorpus::new(8, 8);
    let index = ExactIndex::build(&corpus);
    let guard = LeakageGuard::disabled();
    let mut embedder = HashedBagEmbedder::bigram(8, MASK.0);
    let prompt = [3u32, 7, 11];
    let mut ids = IdSource::new();

    let tokens = {
        let mut denoiser = HostDenoiser {
            plan: &g,
            feed,
            cca,
            vocab: SMALL_VOCAB,
        };
        let mut sampling = SamplingConfig::new(DocumentId(u64::MAX));
        sampling.steps = 8;
        let mut retrieval = RetrievalContext {
            index: &index,
            corpus: &corpus,
            guard: &guard,
            encoder: &mut embedder,
        };
        generate(
            &prompt,
            MASK,
            cca,
            &mut sampling,
            &mut retrieval,
            &mut denoiser,
            &mut ids,
        )
    };

    assert_eq!(tokens.len(), SMALL_SEQ);
    assert_eq!(
        &tokens[..prompt.len()],
        &prompt,
        "the prompt prefix must survive"
    );
    assert!(
        tokens.iter().all(|&t| (t as usize) < SMALL_VOCAB),
        "every position must be a vocab id"
    );
    let text = decode_token_ids(&tokens);
    assert!(
        !text.is_empty(),
        "decode of the result must be non-empty text"
    );
    let prompt_text = decode_token_ids(&prompt);
    assert_ne!(
        text, prompt_text,
        "the decoded generation must be more than the prompt"
    );
}

#[test]
fn rows_are_sliced_and_stacked_in_place() {
    let mut g = Plan::new();
    let x = g.input("x", &[4, 2]);
    let middle: NodeId = anaphora::model::rows::slice_rows(&mut g, x, 4, 2, 1, 2);
    g.set_outputs(vec![middle]);
    let mut feed = Feed::default();
    feed.set("x", (0..8).map(|i| i as f32).collect());
    assert_eq!(run(&g, &feed), vec![2.0, 3.0, 4.0, 5.0]);
    let last: NodeId = anaphora::model::rows::slice_rows(&mut g, x, 4, 2, 3, 1);
    let both: NodeId = anaphora::model::rows::concat_rows(&mut g, &[(last, 1), (middle, 2)], 2);
    g.set_outputs(vec![both]);
    assert_eq!(run(&g, &feed), vec![6.0, 7.0, 2.0, 3.0, 4.0, 5.0]);
    let col = g.input("col", &[3, 1]);
    feed.set("col", vec![9.0, 8.0, 7.0]);
    let wide: NodeId = anaphora::model::rows::append_column(&mut g, both, col, 3, 2);
    g.set_outputs(vec![wide]);
    assert_eq!(
        run(&g, &feed),
        vec![6.0, 7.0, 9.0, 2.0, 3.0, 8.0, 4.0, 5.0, 7.0]
    );
    lower(&g);
}
