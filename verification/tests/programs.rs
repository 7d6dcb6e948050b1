use std::collections::{BTreeMap, BTreeSet};

use mlx_rerank::graph::{Dims, Graph, Kind, LayerType, Num, Part, Side, Slot, Stack, WeightKey};
use mlx_rerank::json::Json;
use mlx_rerank::kalm::{invfreq, KalmModel};
use mlx_rerank::kalm_config::KalmConfig;
use mlx_rerank::kalm_score::ScorePlan;
use mlx_rerank::nemotron::{llama3_freqs, Model};
use mlx_rerank::weights::weight_name;

/// A dense array.
#[derive(Clone, Debug)]
struct Tensor {
    shape: Vec<usize>,
    data: Vec<f64>,
}

fn tensor(shape: &[usize], data: &[f64]) -> Tensor {
    assert_eq!(shape.iter().product::<usize>(), data.len());
    Tensor { shape: shape.to_vec(), data: data.to_vec() }
}

fn scalar(x: f64) -> Tensor {
    tensor(&[], &[x])
}

fn filled(shape: &[usize], x: f64) -> Tensor {
    tensor(shape, &vec![x; shape.iter().product()])
}

fn dims(d: Dims) -> Vec<i64> {
    match d {
        Dims::D1(a) => vec![a],
        Dims::D2(a, b) => vec![a, b],
        Dims::D3(a, b, c) => vec![a, b, c],
        Dims::D4(a, b, c, e) => vec![a, b, c, e],
    }
    .into_iter()
    .map(i64::from)
    .collect()
}

fn whole(d: Dims) -> Vec<usize> {
    dims(d).into_iter().map(|x| x as usize).collect()
}

fn axis_of(axis: i32, rank: usize) -> usize {
    if axis < 0 {
        (rank as i32 + axis) as usize
    } else {
        axis as usize
    }
}

impl Tensor {
    fn index(&self, mut flat: usize) -> Vec<usize> {
        let mut at = vec![0; self.shape.len()];
        for i in (0..self.shape.len()).rev() {
            at[i] = flat % self.shape[i];
            flat /= self.shape[i];
        }
        at
    }

    /// The element at `at`, seen from an array of a greater rank; extents of one stretch.
    fn at(&self, at: &[usize]) -> f64 {
        let skip = at.len() - self.shape.len();
        let mut flat = 0;
        for (i, &n) in self.shape.iter().enumerate() {
            let k = if n == 1 { 0 } else { at[i + skip] };
            assert!(k < n);
            flat = flat * n + k;
        }
        self.data[flat]
    }

    fn build(shape: Vec<usize>, f: impl Fn(&[usize]) -> f64) -> Tensor {
        let count = shape.iter().product();
        let mut out = Tensor { shape, data: vec![0.0; count] };
        for i in 0..count {
            let at = out.index(i);
            out.data[i] = f(&at);
        }
        out
    }

    fn map(&self, f: impl Fn(f64) -> f64) -> Tensor {
        Tensor { shape: self.shape.clone(), data: self.data.iter().map(|&x| f(x)).collect() }
    }

    fn zip(&self, other: &Tensor, f: impl Fn(f64, f64) -> f64) -> Tensor {
        let rank = self.shape.len().max(other.shape.len());
        let extent = |t: &Tensor, i: usize| {
            let skip = rank - t.shape.len();
            if i < skip { 1 } else { t.shape[i - skip] }
        };
        let shape: Vec<usize> = (0..rank)
            .map(|i| {
                let (a, b) = (extent(self, i), extent(other, i));
                assert!(a == b || a == 1 || b == 1, "{:?} {:?}", self.shape, other.shape);
                if a == 1 { b } else { a }
            })
            .collect();
        Tensor::build(shape, |at| f(self.at(at), other.at(at)))
    }

    fn reshape(&self, d: &[i64]) -> Tensor {
        let known: i64 = d.iter().filter(|&&x| x >= 0).product();
        let shape: Vec<usize> = d
            .iter()
            .map(|&x| if x < 0 { self.data.len() / known as usize } else { x as usize })
            .collect();
        tensor(&shape, &self.data)
    }

    fn permute(&self, order: &[usize]) -> Tensor {
        let shape = order.iter().map(|&i| self.shape[i]).collect();
        Tensor::build(shape, |at| {
            let mut from = vec![0; at.len()];
            for (i, &o) in order.iter().enumerate() {
                from[o] = at[i];
            }
            self.at(&from)
        })
    }

    fn reduce(&self, axis: i32, keep: bool, mean: bool) -> Tensor {
        let k = axis_of(axis, self.shape.len());
        let n = self.shape[k];
        let mut shape = self.shape.clone();
        shape[k] = 1;
        let out = Tensor::build(shape, |at| {
            let mut from = at.to_vec();
            let sum: f64 = (0..n)
                .map(|i| {
                    from[k] = i;
                    self.at(&from)
                })
                .sum();
            if mean { sum / n as f64 } else { sum }
        });
        if keep {
            return out;
        }
        let mut shape = out.shape.clone();
        shape.remove(k);
        tensor(&shape, &out.data)
    }

    fn matmul(&self, other: &Tensor) -> Tensor {
        let k = *self.shape.last().unwrap();
        assert_eq!(k, other.shape[0]);
        let mut shape = self.shape.clone();
        *shape.last_mut().unwrap() = other.shape[1];
        Tensor::build(shape, |at| {
            let mut from = at.to_vec();
            let last = from.len() - 1;
            (0..k)
                .map(|i| {
                    from[last] = i;
                    self.at(&from) * other.at(&[i, at[last]])
                })
                .sum()
        })
    }

    fn take(&self, index: &Tensor, axis: i32) -> Tensor {
        let k = axis_of(axis, self.shape.len());
        let mut shape = self.shape[..k].to_vec();
        shape.extend(&index.shape);
        shape.extend(&self.shape[k + 1..]);
        let r = index.shape.len();
        Tensor::build(shape, |at| {
            let mut from = at[..k].to_vec();
            from.push(index.at(&at[k..k + r]) as usize);
            from.extend(&at[k + r..]);
            self.at(&from)
        })
    }

    fn slice(&self, axis: usize, from: usize, to: usize) -> Tensor {
        let mut shape = self.shape.clone();
        shape[axis] = to - from;
        Tensor::build(shape, |at| {
            let mut at = at.to_vec();
            at[axis] += from;
            self.at(&at)
        })
    }

    fn concat(parts: &[Tensor], axis: i32) -> Tensor {
        let k = axis_of(axis, parts[0].shape.len());
        let mut shape = parts[0].shape.clone();
        shape[k] = parts.iter().map(|p| p.shape[k]).sum();
        Tensor::build(shape, |at| {
            let mut at = at.to_vec();
            for p in parts {
                if at[k] < p.shape[k] {
                    return p.at(&at);
                }
                at[k] -= p.shape[k];
            }
            unreachable!()
        })
    }

    fn repeat(&self, count: usize, axis: i32) -> Tensor {
        let k = axis_of(axis, self.shape.len());
        let mut shape = self.shape.clone();
        shape[k] *= count;
        Tensor::build(shape, |at| {
            let mut at = at.to_vec();
            at[k] /= count;
            self.at(&at)
        })
    }

    fn softmax(&self, axis: i32) -> Tensor {
        let k = axis_of(axis, self.shape.len());
        let first = self.slice(k, 0, 1);
        let top = (1..self.shape[k])
            .fold(first, |m, i| m.zip(&self.slice(k, i, i + 1), f64::max));
        let e = self.zip(&top, |x, m| (x - m).exp());
        e.zip(&e.reduce(axis, true, false), |a, b| a / b)
    }
}

fn attention(q: &Tensor, k: &Tensor, v: &Tensor, mask: &Tensor, scale: f64) -> Tensor {
    let group = q.shape[1] / k.shape[1];
    assert_eq!(q.shape[1] % k.shape[1], 0);
    let logits = Tensor::build(
        vec![q.shape[0], q.shape[1], q.shape[2], k.shape[2]],
        |at| {
            let dot: f64 = (0..q.shape[3])
                .map(|d| {
                    q.at(&[at[0], at[1], at[2], d]) * k.at(&[at[0], at[1] / group, at[3], d])
                })
                .sum();
            dot * scale + mask.at(at)
        },
    );
    let w = logits.softmax(-1);
    Tensor::build(vec![q.shape[0], q.shape[1], q.shape[2], v.shape[3]], |at| {
        (0..v.shape[2])
            .map(|u| w.at(&[at[0], at[1], at[2], u]) * v.at(&[at[0], at[1] / group, u, at[3]]))
            .sum()
    })
}

/// What a program reads.
#[derive(Default)]
struct Inputs {
    ids: Vec<Tensor>,
    masks: Vec<Tensor>,
    prompt: Option<Tensor>,
    weights: BTreeMap<String, Tensor>,
    invfreq: Option<Tensor>,
    hidden: f64,
    eps: f64,
    qpas: f64,
    theta: f64,
    factor: f64,
}

impl Inputs {
    fn num(&self, num: Num) -> f64 {
        match num {
            Num::Dec { digits, exp } => format!("{digits}e{exp}").parse().unwrap(),
            Num::TwoPi => 2.0 * std::f64::consts::PI,
            Num::Eps => self.eps,
            Num::AttnScale => self.qpas.powf(-0.5),
            Num::EmbScale => self.hidden.sqrt(),
            Num::Theta(_, _) => self.theta,
            Num::Factor(_, _) => self.factor,
        }
    }

    fn compute(&self, kind: Kind, a: &[Tensor]) -> Tensor {
        match kind {
            Kind::Ids(k) => self.ids[k].clone(),
            Kind::Mask(k) => self.masks[k].clone(),
            Kind::Prompt => self.prompt.clone().unwrap(),
            Kind::Weight(key) => self.weights[&weight_name(key)].clone(),
            Kind::InvFreq(_, _) => self.invfreq.clone().unwrap(),
            Kind::Const(num) => scalar(self.num(num)),
            Kind::Int(i) => scalar(i as f64),
            Kind::IntPair(i, j) => tensor(&[2], &[i as f64, j as f64]),
            Kind::Arange { stop, step } => {
                let all: Vec<f64> = (0..stop).step_by(step as usize).map(f64::from).collect();
                tensor(&[all.len()], &all)
            }
            Kind::Ones(d) => filled(&whole(d), 1.0),
            Kind::ZerosLike(d) => filled(&whole(d), 0.0),
            Kind::Cast(_) | Kind::CastLike => a[0].clone(),
            Kind::Reshape(d) => a[0].reshape(&dims(d)),
            Kind::Permute(d) => a[0].permute(&whole(d)),
            Kind::Transpose => {
                let order: Vec<usize> = (0..a[0].shape.len()).rev().collect();
                a[0].permute(&order)
            }
            Kind::Broadcast(d) => a[0].zip(&filled(&whole(d), 0.0), |x, _| x),
            Kind::Matmul => a[0].matmul(&a[1]),
            Kind::Add => a[0].zip(&a[1], |x, y| x + y),
            Kind::Subtract => a[0].zip(&a[1], |x, y| x - y),
            Kind::Multiply => a[0].zip(&a[1], |x, y| x * y),
            Kind::Divide => a[0].zip(&a[1], |x, y| x / y),
            Kind::Maximum => a[0].zip(&a[1], f64::max),
            Kind::Power => a[0].zip(&a[1], f64::powf),
            Kind::Reciprocal => a[0].map(f64::recip),
            Kind::Rsqrt => a[0].map(|x| x.sqrt().recip()),
            Kind::Tanh => a[0].map(f64::tanh),
            Kind::Cos => a[0].map(f64::cos),
            Kind::Sin => a[0].map(f64::sin),
            Kind::Silu => a[0].map(|x| x / (1.0 + (-x).exp())),
            Kind::Greater => a[0].zip(&a[1], |x, y| f64::from(x > y)),
            Kind::Less => a[0].zip(&a[1], |x, y| f64::from(x < y)),
            Kind::Equal => a[0].zip(&a[1], |x, y| f64::from(x == y)),
            Kind::And => a[0].zip(&a[1], |x, y| f64::from(x != 0.0 && y != 0.0)),
            Kind::Which => {
                let yes = a[0].zip(&a[1], |c, x| if c != 0.0 { x } else { 0.0 });
                let no = a[0].zip(&a[2], |c, x| if c != 0.0 { 0.0 } else { x });
                yes.zip(&no, |x, y| x + y)
            }
            Kind::Mean { axis, keep } => a[0].reduce(axis, keep, true),
            Kind::Sum { axis, keep } => a[0].reduce(axis, keep, false),
            Kind::Softmax { axis } => a[0].softmax(axis),
            Kind::Take { axis } => a[0].take(&a[1], axis),
            Kind::SliceLast { from, to } => {
                a[0].slice(a[0].shape.len() - 1, from as usize, to as usize)
            }
            Kind::Concat { axis } => Tensor::concat(a, axis),
            Kind::Repeat { count, axis } => a[0].repeat(count as usize, axis),
            Kind::Triu(k) => {
                let x = &a[0];
                Tensor::build(x.shape.clone(), |at| {
                    if at[1] as i32 >= at[0] as i32 + k { x.at(at) } else { 0.0 }
                })
            }
            Kind::Attention(num) => attention(&a[0], &a[1], &a[2], &a[3], self.num(num)),
            Kind::Freqs | Kind::FastRmsNorm(_) | Kind::FastRope(_) => unreachable!(),
        }
    }

    fn run(&self, g: &Graph) -> Vec<Tensor> {
        let mut values: Vec<Tensor> = Vec::new();
        for i in 0..g.len() {
            let node = g.node(i);
            let args: Vec<Tensor> = node.args.iter().map(|&k| values[k].clone()).collect();
            values.push(self.compute(node.kind, &args));
        }
        values
    }
}

fn close(a: f64, b: f64) -> bool {
    (a - b).abs() <= 1e-9 * (1.0 + b.abs())
}

fn assert_close(a: &[f64], b: &[f64]) {
    assert_eq!(a.len(), b.len());
    for (x, y) in a.iter().zip(b) {
        assert!(close(*x, *y), "{a:?} {b:?}");
    }
}

const CONFIG: &str = r#"{
    "encoder": {"text_config": {
        "hidden_size": 6, "head_dim": 4, "num_attention_heads": 2, "num_key_value_heads": 1,
        "rms_norm_eps": 1e-6, "num_hidden_layers": 2, "query_pre_attn_scalar": 16,
        "layer_types": ["full_attention", "sliding_attention"],
        "rope_parameters": {"full_attention": {"rope_theta": 1000000.0, "factor": 8.0},
                            "sliding_attention": {"rope_theta": 10000.0}}}},
    "decoder": {"num_hidden_layers": 1, "layer_types": ["sliding_attention"],
        "rope_parameters": {"full_attention": {"rope_theta": 1000000.0},
                            "sliding_attention": {"rope_theta": 10000.0}}}
}"#;

fn model() -> KalmModel {
    let cfg = KalmConfig::from_json(&Json::parse(CONFIG).unwrap()).unwrap();
    assert!(cfg.is_wf());
    KalmModel { cfg, yes_id: 3, no_id: 5 }
}

fn weight_shape(name: &str) -> Vec<usize> {
    let (h, hd, nh, inner, vocab) = (6, 4, 2, 5, 12);
    if name.ends_with("embed_tokens.weight") {
        vec![vocab, h]
    } else if name.ends_with("q_norm.weight") || name.ends_with("k_norm.weight") {
        vec![hd]
    } else if name.ends_with("norm.weight") {
        vec![h]
    } else if name.ends_with("q_proj.weight") {
        vec![nh * hd, h]
    } else if name.ends_with("k_proj.weight") || name.ends_with("v_proj.weight") {
        vec![hd, h]
    } else if name.ends_with("o_proj.weight") {
        vec![h, nh * hd]
    } else if name.ends_with("down_proj.weight") {
        vec![h, inner]
    } else {
        vec![inner, h]
    }
}

/// Weights for every name that a program reads, of no particular pattern.
fn weights(g: &Graph) -> BTreeMap<String, Tensor> {
    let mut out = BTreeMap::new();
    for i in 0..g.len() {
        if let Kind::Weight(key) = g.node(i).kind {
            let name = weight_name(key);
            let shape = weight_shape(&name);
            let mut seed: u64 = name.bytes().fold(7, |s, b| s.wrapping_mul(31) + b as u64);
            let data: Vec<f64> = (0..shape.iter().product())
                .map(|_| {
                    seed = seed.wrapping_mul(6364136223846793005).wrapping_add(1442695040888963407);
                    (seed >> 40) as f64 / (1u64 << 23) as f64 - 1.0
                })
                .collect();
            out.insert(name, tensor(&shape, &data));
        }
    }
    out
}

fn reals(v: &[i32]) -> Vec<f64> {
    v.iter().map(|&x| x as f64).collect()
}

fn run_plan(plan: &ScorePlan) -> Vec<f64> {
    let inputs = Inputs {
        ids: plan.batches.iter().map(|b| tensor(&[b.rows, b.width], &reals(&b.ids))).collect(),
        masks: plan.batches.iter().map(|b| tensor(&[b.rows, b.width], &reals(&b.mask))).collect(),
        prompt: Some(tensor(&[1, plan.prompt.len()], &reals(&plan.prompt))),
        weights: weights(&plan.program.graph),
        invfreq: Some(tensor(&[2], &[1.0, 0.01])),
        hidden: 6.0,
        eps: 1e-6,
        qpas: 16.0,
        ..Inputs::default()
    };
    let values = inputs.run(&plan.program.graph);
    for (k, b) in plan.batches.iter().enumerate() {
        let chunks = (b.width + 3) / 4;
        assert_eq!(values[plan.program.pools[k]].shape, vec![b.rows, chunks, 6]);
        assert_eq!(values[plan.program.masks[k]].shape, vec![b.rows, chunks]);
    }
    let sorted = &values[plan.program.out];
    assert_eq!(sorted.shape, vec![plan.plan.encs.len()]);
    plan.scores(&sorted.data, f64::NAN)
}

#[test]
fn scores_do_not_depend_on_the_sub_batches() {
    let encs: Vec<Vec<u32>> = vec![
        vec![1, 2, 3, 4, 5, 6, 7],
        vec![8],
        vec![9, 10, 11, 1, 2],
        vec![4, 4, 4, 4],
        vec![11, 3, 8, 1, 7, 2, 2, 9, 6],
    ];
    let prompt = vec![2u32, 7, 1, 8, 2, 8];
    let whole = run_plan(&model().plan_scores(encs.clone(), &prompt, 25));
    assert_eq!(whole.len(), 5);
    assert!(whole.iter().all(|s| *s > 0.0 && *s < 1.0));
    for size in 1..5 {
        assert_close(&run_plan(&model().plan_scores(encs.clone(), &prompt, size)), &whole);
    }
    for (d, enc) in encs.iter().enumerate() {
        let alone = run_plan(&model().plan_scores(vec![enc.clone()], &prompt, 3));
        assert_close(&alone, &whole[d..d + 1]);
    }
    let mut reversed = encs.clone();
    reversed.reverse();
    let mut back = run_plan(&model().plan_scores(reversed, &prompt, 2));
    back.reverse();
    assert_close(&back, &whole);
    assert!(!close(whole[0], whole[1]) && !close(whole[2], whole[3]));
}

#[test]
fn scores_depend_on_the_prompt_and_on_the_order_of_tokens() {
    let encs = vec![vec![1u32, 2, 3, 4, 5]];
    let a = run_plan(&model().plan_scores(encs.clone(), &vec![2, 7, 1], 1));
    let b = run_plan(&model().plan_scores(encs, &vec![2, 7, 4], 1));
    let c = run_plan(&model().plan_scores(vec![vec![5u32, 2, 3, 4, 1]], &vec![2, 7, 1], 1));
    assert!(!close(a[0], b[0]));
    assert!(!close(a[0], c[0]));
}

#[test]
fn yes_and_no_share_the_probability() {
    let encs = vec![vec![1u32, 2, 3], vec![9, 9]];
    let prompt = vec![2u32, 7, 1, 8];
    let yes = run_plan(&model().plan_scores(encs.clone(), &prompt, 2));
    let swapped = KalmModel { cfg: model().cfg, yes_id: 5, no_id: 3 };
    let no = run_plan(&swapped.plan_scores(encs, &prompt, 2));
    assert_close(&[yes[0] + no[0], yes[1] + no[1]], &[1.0, 1.0]);
}

#[test]
fn empty_documents_are_scored() {
    let scores = run_plan(&model().plan_scores(vec![vec![], vec![1, 2]], &vec![2, 7], 2));
    assert!(scores.iter().all(|s| *s > 0.0 && *s < 1.0));
}

fn on_rows(build: impl Fn(&mut Graph, usize) -> usize, x: Tensor, inputs: Inputs) -> Tensor {
    let mut g = Graph::new();
    let at = g.op0(Kind::Ids(0));
    let out = build(&mut g, at);
    Inputs { ids: vec![x], ..inputs }.run(&g)[out].clone()
}

#[test]
fn gelu_at_known_points() {
    let x = tensor(&[4], &[-1.0, 0.0, 1.0, 2.0]);
    let y = on_rows(|g, at| KalmModel::gelu(g, at), x, Inputs::default());
    let expected = [-0.15880800939172324, 0.0, 0.8411919906082768, 1.954597694087775];
    assert_close(&y.data, &expected);
}

#[test]
fn norms_scale_by_one_plus_the_weight() {
    let slot = Slot::FinalNorm;
    let mut inputs = Inputs { eps: 0.5, ..Inputs::default() };
    inputs.weights.insert("model.decoder.norm.weight".into(), tensor(&[2], &[0.0, 1.0]));
    let x = tensor(&[2, 2], &[3.0, 4.0, 0.0, 1.0]);
    let y = on_rows(|g, at| KalmModel::rms_k(g, at, Side::Decoder, slot), x, inputs);
    let (a, b) = ((12.5f64 + 0.5).sqrt(), (0.5f64 + 0.5).sqrt());
    assert_close(&y.data, &[3.0 / a, 8.0 / a, 0.0, 2.0 / b]);
}

#[test]
fn rotary_tables_and_rotation() {
    let inputs = Inputs { invfreq: Some(tensor(&[2], &[1.0, 0.5])), ..Inputs::default() };
    let mut g = Graph::new();
    let x = g.op0(Kind::Ids(0));
    let (c, s) = KalmModel::cs(&mut g, Side::Encoder, LayerType::Full, 2);
    let out = model().rope(&mut g, x, c, s);
    let values = Inputs {
        ids: vec![tensor(&[1, 1, 2, 4], &[1.0, 2.0, 3.0, 4.0, 1.0, 2.0, 3.0, 4.0])],
        ..inputs
    }
    .run(&g);
    let (c1, s1, c2, s2) = (1f64.cos(), 1f64.sin(), 0.5f64.cos(), 0.5f64.sin());
    assert_eq!(values[c].shape, vec![1, 1, 2, 4]);
    assert_close(&values[c].data, &[1.0, 1.0, 1.0, 1.0, c1, c2, c1, c2]);
    assert_close(&values[s].data, &[0.0, 0.0, 0.0, 0.0, s1, s2, s1, s2]);
    let turned = [c1 - 3.0 * s1, 2.0 * c2 - 4.0 * s2, 3.0 * c1 + s1, 4.0 * c2 + 2.0 * s2];
    assert_close(&values[out].data[..4], &[1.0, 2.0, 3.0, 4.0]);
    assert_close(&values[out].data[4..], &turned);
}

#[test]
fn chunks_are_pooled_over_kept_tokens() {
    let mut g = Graph::new();
    let states = g.op0(Kind::Ids(0));
    let am = g.op0(Kind::Mask(0));
    let (pooled, pmask) = model().pool(&mut g, states, am, 1, 6);
    let mut data = vec![0.0; 36];
    for t in 0..6 {
        for d in 0..6 {
            data[t * 6 + d] = (10 * t + d) as f64;
        }
    }
    let inputs = Inputs {
        ids: vec![tensor(&[1, 6, 6], &data)],
        masks: vec![tensor(&[1, 6], &[1.0, 1.0, 1.0, 0.0, 0.0, 0.0])],
        ..Inputs::default()
    };
    let values = inputs.run(&g);
    assert_eq!(values[pooled].shape, vec![1, 2, 6]);
    assert_close(&values[pooled].data[..6], &[10.0, 11.0, 12.0, 13.0, 14.0, 15.0]);
    assert_close(&values[pooled].data[6..], &[0.0; 6]);
    assert_close(&values[pmask].data, &[1.0, 0.0]);
}

#[test]
fn zeros_are_hidden() {
    let x = tensor(&[3], &[1.0, 0.0, 2.0]);
    let y = on_rows(|g, at| KalmModel::hide_zeros(g, at), x, Inputs::default());
    assert_eq!(y.data, vec![0.0, -1e30, 0.0]);
}

#[test]
fn key_heads_are_repeated() {
    let x = tensor(&[1, 1, 1, 2], &[5.0, 6.0]);
    let y = on_rows(|g, at| model().repeat_kv(g, at), x, Inputs::default());
    assert_eq!(y.shape, vec![1, 2, 1, 2]);
    assert_eq!(y.data, vec![5.0, 6.0, 5.0, 6.0]);
}

#[test]
fn inverse_frequencies() {
    let (g, out) = invfreq(Side::Encoder, LayerType::Full, 4);
    let inputs = Inputs { theta: 1e6, factor: 8.0, ..Inputs::default() };
    assert_close(&inputs.run(&g)[out].data, &[1.0 / 8.0, 1e-3 / 8.0]);
}

#[test]
fn scaled_frequencies_in_three_bands() {
    let (g, out) = llama3_freqs();
    let freqs = Inputs::default().run(&g)[out].clone();
    assert_eq!(freqs.shape, vec![32]);
    let mut bands = BTreeSet::new();
    for i in 0..32 {
        let base = 500000f64.powf(2.0 * i as f64 / 64.0);
        let wavelen = 2.0 * std::f64::consts::PI * base;
        let expected = if wavelen > 8192.0 {
            bands.insert("low");
            base * 32.0
        } else if wavelen > 2048.0 {
            bands.insert("medium");
            let smooth = (8192.0 / wavelen - 1.0) / 3.0;
            base / ((1.0 - smooth) / 32.0 + smooth)
        } else {
            bands.insert("high");
            base
        };
        assert!(close(freqs.data[i], expected), "{i}: {} {expected}", freqs.data[i]);
    }
    assert_eq!(bands.len(), 3);
    assert_close(&freqs.data[..1], &[1.0]);
}

/// The shapes of a program of the cross-encoder, for a vocabulary of ten tokens
/// and feed-forward layers of width sixteen.
fn shapes(g: &Graph, b: i64, s: i64) -> Vec<Vec<i64>> {
    let mut all: Vec<Vec<i64>> = Vec::new();
    let zip = |x: &Vec<i64>, y: &Vec<i64>| -> Vec<i64> {
        let (long, short) = if x.len() < y.len() { (y, x) } else { (x, y) };
        let skip = long.len() - short.len();
        let extent = |i: usize| {
            let (p, q) = (long[i], if i < skip { 1 } else { short[i - skip] });
            assert!(p == q || p == 1 || q == 1);
            p.max(q)
        };
        (0..long.len()).map(extent).collect()
    };
    for i in 0..g.len() {
        let node = g.node(i);
        let a: Vec<Vec<i64>> = node.args.iter().map(|&k| all[k].clone()).collect();
        let shape = match node.kind {
            Kind::Ids(0) | Kind::Mask(0) => vec![b, s],
            Kind::Freqs => vec![32],
            Kind::Const(_) => vec![],
            Kind::Weight(WeightKey { slot, .. }) => match slot {
                Slot::Embedding => vec![10, 2048],
                Slot::FinalNorm => vec![2048],
                Slot::ScoreHead => vec![1, 2048],
                Slot::Layer(_, Part::InputNorm | Part::PostAttentionNorm) => vec![2048],
                Slot::Layer(_, Part::QProj | Part::OProj) => vec![2048, 2048],
                Slot::Layer(_, Part::KProj | Part::VProj) => vec![512, 2048],
                Slot::Layer(_, Part::DownProj) => vec![2048, 16],
                Slot::Layer(_, _) => vec![16, 2048],
            },
            Kind::Cast(_) | Kind::Silu => a[0].clone(),
            Kind::Transpose => a[0].iter().rev().copied().collect(),
            Kind::Reshape(d) => {
                let d = dims(d);
                let total: i64 = a[0].iter().product();
                let known: i64 = d.iter().filter(|&&x| x >= 0).product();
                let shape: Vec<i64> =
                    d.iter().map(|&x| if x < 0 { total / known } else { x }).collect();
                assert_eq!(shape.iter().product::<i64>(), total);
                shape
            }
            Kind::Permute(d) => dims(d).iter().map(|&k| a[0][k as usize]).collect(),
            Kind::Matmul => {
                assert_eq!(a[0].last(), a[1].first());
                let mut shape = a[0].clone();
                *shape.last_mut().unwrap() = a[1][1];
                shape
            }
            Kind::Add | Kind::Multiply | Kind::Divide | Kind::Equal => zip(&a[0], &a[1]),
            Kind::Which => zip(&a[0], &zip(&a[1], &a[2])),
            Kind::Sum { axis, keep: false } => {
                let mut shape = a[0].clone();
                shape.remove(axis as usize);
                shape
            }
            Kind::Take { axis: 0 } => [a[1].clone(), a[0][1..].to_vec()].concat(),
            Kind::FastRmsNorm(_) => {
                assert_eq!(a[0].last(), a[1].last());
                a[0].clone()
            }
            Kind::FastRope(turn) => {
                assert_eq!(a[0].last(), Some(&i64::from(turn.dims)));
                assert!(!turn.neighbours && !turn.by_base);
                assert_eq!((turn.scale, turn.offset), (Num::Dec { digits: 1, exp: 0 }, 0));
                a[0].clone()
            }
            Kind::Attention(_) => {
                assert_eq!(a[1], a[2]);
                assert_eq!(a[0][1] % a[1][1], 0);
                let square = vec![a[0][0], a[0][1], a[0][2], a[1][2]];
                assert_eq!(zip(&square, &a[3]), square);
                a[0].clone()
            }
            kind => panic!("{kind:?}"),
        };
        all.push(shape);
    }
    all
}

#[test]
fn forward_gives_a_score_for_every_row() {
    for (b, s) in [(1, 1), (3, 7), (10, 512)] {
        let (g, out) = Model::forward(b, s);
        assert_eq!(shapes(&g, b as i64, s as i64)[out], vec![b as i64]);
    }
}

#[test]
fn forward_reads_every_weight_of_the_checkpoint() {
    let (g, _) = Model::forward(2, 3);
    let mut names = BTreeSet::new();
    for i in 0..g.len() {
        if let Kind::Weight(key) = g.node(i).kind {
            assert_eq!(key.stack, Stack::Nemotron);
            names.insert(weight_name(key));
        }
    }
    assert_eq!(names.len(), 16 * 9 + 3);
    assert!(names.contains("model.embed_tokens.weight"));
    assert!(names.contains("model.layers.0.input_layernorm.weight"));
    assert!(names.contains("model.layers.15.mlp.down_proj.weight"));
    assert!(names.contains("model.norm.weight"));
    assert!(names.contains("score.weight"));
}

#[test]
fn forward_constants() {
    let (g, _) = Model::forward(2, 3);
    let mut scales = BTreeSet::new();
    for i in 0..g.len() {
        match g.node(i).kind {
            Kind::Attention(num) => {
                scales.insert(format!("{}", Inputs::default().num(num)));
            }
            Kind::FastRmsNorm(num) => assert_eq!(Inputs::default().num(num), 1e-5),
            _ => {}
        }
    }
    assert_eq!(scales.into_iter().collect::<Vec<_>>(), vec!["0.125"]);
}

#[test]
fn operands_stand_before_their_operation() {
    let (g, out) = Model::forward(1, 2);
    assert_eq!(out, g.len() - 1);
    for i in 0..g.len() {
        assert!(g.node(i).args.iter().all(|&k| k < i));
    }
}

/// What a program over the small model computes from these arrays.
fn computed(g: &Graph, ids: Vec<Tensor>, masks: Vec<Tensor>, out: usize) -> Tensor {
    let inputs = Inputs {
        ids,
        masks,
        weights: weights(g),
        invfreq: Some(tensor(&[2], &[1.0, 0.01])),
        hidden: 6.0,
        eps: 1e-6,
        qpas: 16.0,
        ..Inputs::default()
    };
    inputs.run(g)[out].clone()
}

/// The pooled states of rows, and their marks.
fn encoded(ids: &[&[i32]], marks: &[&[i32]]) -> (Tensor, Tensor) {
    let (b, t) = (ids.len(), ids[0].len());
    let mut g = Graph::new();
    let (x, am) = (g.op0(Kind::Ids(0)), g.op0(Kind::Mask(0)));
    let (pools, pmask) = model().encode(&mut g, x, am, b as i32, t as i32);
    let of = |rows: &[&[i32]]| vec![tensor(&[b, t], &reals(&rows.concat()))];
    (computed(&g, of(ids), of(marks), pools), computed(&g, of(ids), of(marks), pmask))
}

#[test]
fn pools_depend_on_the_kept_tokens_of_their_row() {
    let marks: [&[i32]; 2] = [&[1, 1, 0, 1, 1], &[1, 1, 1, 1, 1]];
    let (pools, pmask) = encoded(&[&[1, 2, 3, 4, 5], &[6, 7, 8, 9, 10]], &marks);
    let (other, omask) = encoded(&[&[1, 2, 9, 4, 5], &[6, 7, 8, 9, 1]], &marks);
    assert_close(&pools.data[..12], &other.data[..12]);
    assert_close(&pmask.data[..2], &omask.data[..2]);
    assert!(!close(pools.data[18], other.data[18]));
    let (third, _) = encoded(&[&[1, 2, 9, 4, 3]], &[&[1, 1, 0, 1, 1]]);
    assert!(!close(pools.data[0], third.data[0]));
}

#[test]
fn masked_columns_pool_to_zeros() {
    let (pools, pmask) = encoded(&[&[1, 2, 3, 4, 5]], &[&[1, 1, 0, 1, 1]]);
    let (wider, wmask) =
        encoded(&[&[1, 2, 3, 4, 5, 6, 7, 8, 9, 10]], &[&[1, 1, 0, 1, 1, 0, 0, 0, 0, 0]]);
    assert_eq!((pools.shape.clone(), wider.shape.clone()), (vec![1, 2, 6], vec![1, 3, 6]));
    assert_close(&wider.data[..12], &pools.data);
    assert_eq!(wider.data[12..], [0.0; 6]);
    assert_close(&wmask.data[..2], &pmask.data);
    assert_eq!(wmask.data[2], 0.0);
}

/// The states of a prompt of three tokens over three pooled states.
fn decoded(prompt: &[i32], pooled: &[f64], mask: &[f64]) -> Tensor {
    let mut g = Graph::new();
    let (dids, states, mm) = (g.op0(Kind::Ids(0)), g.op0(Kind::Ids(1)), g.op0(Kind::Mask(0)));
    let out = model().decode(&mut g, dids, states, mm, 1, 3, 3);
    let ids = vec![tensor(&[1, 3], &reals(prompt)), tensor(&[1, 3, 6], pooled)];
    computed(&g, ids, vec![tensor(&[1, 1, 3, 6], mask)], out)
}

/// Three pooled states, by the number that each begins with.
fn pooled(firsts: [i32; 3]) -> Vec<f64> {
    let of = |x: i32| (0..6).map(move |j| f64::from(x) * 0.3 - f64::from(j * j) * 0.1);
    firsts.into_iter().flat_map(of).collect()
}

/// A causal mask with these numbers for the pooled states.
fn causal(far: [f64; 3]) -> Vec<f64> {
    let row = |q: usize| {
        let near = (0..3).map(move |k| if k <= q { 0.0 } else { -1e30 });
        near.chain(far).collect::<Vec<f64>>()
    };
    (0..3).flat_map(row).collect()
}

#[test]
fn later_tokens_of_a_prompt_are_not_seen() {
    let mask = causal([0.0; 3]);
    let whole = decoded(&[2, 7, 1], &pooled([1, 2, 3]), &mask);
    let other = decoded(&[2, 7, 4], &pooled([1, 2, 3]), &mask);
    assert_close(&other.data[..12], &whole.data[..12]);
    assert!(!close(other.data[12], whole.data[12]));
    let open = decoded(&[2, 7, 4], &pooled([1, 2, 3]), &vec![0.0; 18]);
    assert!(!close(open.data[0], whole.data[0]));
}

#[test]
fn hidden_pools_are_not_seen() {
    let mask = causal([0.0, -1e30, 0.0]);
    let whole = decoded(&[2, 7, 1], &pooled([1, 2, 3]), &mask);
    assert_close(&decoded(&[2, 7, 1], &pooled([1, 9, 3]), &mask).data, &whole.data);
    assert!(!close(decoded(&[2, 7, 1], &pooled([1, 2, 4]), &mask).data[0], whole.data[0]));
}

#[test]
fn pools_have_no_order() {
    let whole = decoded(&[2, 7, 1], &pooled([1, 2, 3]), &causal([0.0, -1e30, -0.5]));
    let turned = decoded(&[2, 7, 1], &pooled([3, 1, 2]), &causal([-0.5, 0.0, -1e30]));
    assert_close(&turned.data, &whole.data);
    let apart = decoded(&[2, 7, 1], &pooled([3, 1, 2]), &causal([0.0, -1e30, -0.5]));
    assert!(!close(apart.data[0], whole.data[0]));
}
