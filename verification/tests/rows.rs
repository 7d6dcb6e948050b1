use std::rc::Rc;

use mlx_rerank::batch::RunPlan;
use mlx_rerank::graph::{Dims, Graph, Kind, Num};
use mlx_rerank::nemotron::Model;
use mlx_rerank::weights::weight_name;

/// Elements are numbers without meaning, but for zero, one and [`HIDDEN_KEY`].
type Cell = u64;

/// The mask of a key that gets no weight.
const HIDDEN_KEY: Cell = u64::MAX;

fn mix(a: Cell, b: Cell) -> Cell {
    (a.rotate_left(17) ^ b).wrapping_mul(0x9e37_79b9_7f4a_7c15).rotate_left(29).wrapping_add(b)
}

fn named(text: &str) -> Cell {
    text.bytes().fold(11, |h, b| mix(h, b as Cell))
}

fn folded(seed: Cell, cells: impl Iterator<Item = Cell>) -> Cell {
    cells.fold(seed, mix)
}

/// An array: its elements, or the name of a weight.
#[derive(Clone)]
struct Array {
    shape: Vec<usize>,
    cells: Rc<Vec<Cell>>,
    weight: Cell,
}

fn array(shape: Vec<usize>, cells: Vec<Cell>) -> Array {
    assert_eq!(shape.iter().product::<usize>(), cells.len());
    Array { shape, cells: Rc::new(cells), weight: 0 }
}

impl Array {
    fn build(shape: Vec<usize>, f: impl Fn(&[usize]) -> Cell) -> Array {
        let count: usize = shape.iter().product();
        let mut at = vec![0; shape.len()];
        let mut cells = Vec::with_capacity(count);
        for _ in 0..count {
            cells.push(f(&at));
            for i in (0..shape.len()).rev() {
                at[i] += 1;
                if at[i] < shape[i] {
                    break;
                }
                at[i] = 0;
            }
        }
        array(shape, cells)
    }

    fn at(&self, at: &[usize]) -> Cell {
        let skip = at.len() - self.shape.len();
        let mut place = 0;
        for (i, &n) in self.shape.iter().enumerate() {
            let k = if n == 1 { 0 } else { at[i + skip] };
            assert!(k < n);
            place = place * n + k;
        }
        self.cells[place]
    }

    fn zip(&self, other: &Array, f: impl Fn(Cell, Cell) -> Cell) -> Array {
        let shape =
            if self.shape.len() < other.shape.len() { &other.shape } else { &self.shape };
        Array::build(shape.clone(), |at| f(self.at(at), other.at(at)))
    }

    fn map(&self, f: impl Fn(Cell) -> Cell) -> Array {
        array(self.shape.clone(), self.cells.iter().map(|&x| f(x)).collect())
    }

    fn reshape(&self, d: &[i32]) -> Array {
        let known: i32 = d.iter().filter(|&&x| x >= 0).product();
        let open = self.cells.len() / known as usize;
        let shape = d.iter().map(|&x| if x < 0 { open } else { x as usize }).collect();
        array(shape, self.cells.to_vec())
    }

    /// The elements of the last axis, one line after another.
    fn lines(&self) -> Vec<Cell> {
        let n = *self.shape.last().unwrap();
        self.cells.chunks(n).map(|line| folded(3, line.iter().copied())).collect()
    }
}

fn extents(d: Dims) -> Vec<i32> {
    match d {
        Dims::D1(a) => vec![a],
        Dims::D2(a, b) => vec![a, b],
        Dims::D3(a, b, c) => vec![a, b, c],
        Dims::D4(a, b, c, e) => vec![a, b, c, e],
    }
}

fn added(x: Cell, y: Cell) -> Cell {
    match (x, y) {
        (x, 0) => x,
        (0, y) => y,
        (x, y) => mix(mix(5, x), y),
    }
}

fn multiplied(x: Cell, y: Cell) -> Cell {
    if x == 0 || y == 0 { 0 } else { mix(mix(7, x), y) }
}

fn attention(a: &[Array]) -> Array {
    let (q, k, v, mask) = (&a[0], &a[1], &a[2], &a[3]);
    let group = q.shape[1] / k.shape[1];
    let (queries, keys, values) = (q.lines(), k.lines(), v.lines());
    let gathered = Array::build(q.shape[..3].to_vec(), |at| {
        let mut out = mix(13, queries[(at[0] * q.shape[1] + at[1]) * q.shape[2] + at[2]]);
        for u in 0..k.shape[2] {
            let key = (at[0] * k.shape[1] + at[1] / group) * k.shape[2] + u;
            let hidden = mask.at(&[at[0], at[1], at[2], u]);
            if hidden != HIDDEN_KEY {
                out = mix(mix(mix(out, keys[key]), values[key]), hidden);
            }
        }
        out
    });
    Array::build(q.shape.clone(), |at| mix(gathered.at(&at[..3]), at[3] as Cell))
}

fn compute(kind: Kind, a: &[Array], ids: &Array, mask: &Array) -> Array {
    match kind {
        Kind::Ids(_) => ids.clone(),
        Kind::Mask(_) => mask.clone(),
        Kind::Weight(key) => {
            let weight = named(&weight_name(key));
            Array { shape: vec![], cells: Rc::new(vec![]), weight }
        }
        Kind::Freqs => array(vec![1], vec![17]),
        Kind::Const(Num::Dec { digits: 0, .. }) => array(vec![], vec![0]),
        Kind::Const(Num::Dec { digits: -6, exp: 4 }) => array(vec![], vec![HIDDEN_KEY]),
        Kind::Cast(_) | Kind::Transpose => a[0].clone(),
        Kind::Reshape(d) => a[0].reshape(&extents(d)),
        Kind::Permute(_) => {
            let s = &a[0].shape;
            let shape = vec![s[0], s[2], s[1], s[3]];
            Array::build(shape, |at| a[0].at(&[at[0], at[2], at[1], at[3]]))
        }
        Kind::Take { axis: 0 } => {
            let shape = vec![a[1].shape[0], 2048];
            let row = |at: &[usize]| mix(mix(a[0].weight, a[1].cells[at[0]]), at[1] as Cell);
            Array::build(shape, row)
        }
        Kind::Matmul => {
            let lines = a[0].lines();
            let mut shape = a[0].shape.clone();
            let n = width(a[1].weight);
            *shape.last_mut().unwrap() = n;
            let of = |line: &Cell| {
                let line = *line;
                (0..n).map(move |j| mix(mix(line, a[1].weight), j as Cell))
            };
            array(shape, lines.iter().flat_map(of).collect())
        }
        Kind::FastRmsNorm(_) => {
            let lines = a[0].lines();
            let n = *a[0].shape.last().unwrap();
            let of = |line: &Cell| {
                let line = *line;
                (0..n).map(move |j| mix(mix(line, a[1].weight), j as Cell))
            };
            array(a[0].shape.clone(), lines.iter().flat_map(of).collect())
        }
        Kind::FastRope(_) => {
            let lines = a[0].lines();
            let s = a[0].shape[1];
            Array::build(a[0].shape.clone(), |at| {
                let line = lines[at[0] * s + at[1]];
                mix(mix(line, at[1] as Cell), at[2] as Cell)
            })
        }
        Kind::Attention(_) => attention(a),
        Kind::Add => a[0].zip(&a[1], added),
        Kind::Multiply => a[0].zip(&a[1], multiplied),
        Kind::Divide => a[0].zip(&a[1], |x, y| mix(mix(19, x), y)),
        Kind::Silu => a[0].map(|x| mix(23, x)),
        Kind::Equal => a[0].zip(&a[1], |x, y| Cell::from(x == y)),
        Kind::Which => {
            let (yes, no) = (a[1].cells[0], a[2].cells[0]);
            a[0].map(|c| if c != 0 { yes } else { no })
        }
        Kind::Sum { axis: 1, keep: false } => {
            let s = &a[0].shape;
            Array::build(vec![s[0], s[2]], |at| {
                (0..s[1]).fold(0, |sum, i| added(sum, a[0].at(&[at[0], i, at[1]])))
            })
        }
        _ => unreachable!(),
    }
}

/// The number of columns that a product with a weight has.
fn width(weight: Cell) -> usize {
    let wide = |part: &str| (0..16).any(|i| named(&format!("model.layers.{i}.{part}")) == weight);
    if wide("self_attn.k_proj.weight") || wide("self_attn.v_proj.weight") {
        512
    } else if weight == named("score.weight") {
        1
    } else {
        2048
    }
}

fn run(graph: &Graph, out: usize, ids: &Array, mask: &Array) -> Vec<Cell> {
    let mut values: Vec<Array> = Vec::new();
    for i in 0..graph.len() {
        let node = graph.node(i);
        let args: Vec<Array> = node.args.iter().map(|&k| values[k].clone()).collect();
        values.push(compute(node.kind, &args, ids, mask));
    }
    values[out].cells.to_vec()
}

fn scores(plan: &RunPlan) -> Vec<Cell> {
    let (mut ids, mut mask) = (vec![], vec![]);
    let mut per_chunk = vec![];
    for c in 0..plan.chunk_idx.len() {
        let (rows, width) = plan.pad(c, &mut ids, &mut mask);
        let cells = |list: &Vec<i32>| {
            array(vec![rows, width], list.iter().map(|&x| x as Cell).collect())
        };
        let (graph, out) = Model::forward(rows as i32, width as i32);
        let all = run(&graph, out, &cells(&ids), &cells(&mask));
        assert_eq!(all.len(), rows);
        per_chunk.push(all);
    }
    plan.scores(&per_chunk, 0)
}

fn documents() -> Vec<Vec<u32>> {
    vec![vec![4, 9, 2], vec![7], vec![5, 1, 8, 3], vec![6, 6], vec![7, 4]]
}

#[test]
fn rows_of_a_padded_batch_are_scored_by_themselves() {
    let whole = scores(&RunPlan::by_capped_length(documents(), 5));
    for (d, doc) in documents().into_iter().enumerate() {
        assert_eq!(scores(&RunPlan::by_capped_length(vec![doc], 3)), vec![whole[d]]);
    }
    let mut apart = whole.clone();
    apart.sort();
    apart.dedup();
    assert_eq!(apart.len(), 5);
}

#[test]
fn sub_batches_and_order_change_no_score_of_the_cross_encoder() {
    let whole = scores(&RunPlan::by_capped_length(documents(), 5));
    assert_eq!(scores(&RunPlan::by_capped_length(documents(), 2)), whole);
    let mut reversed = documents();
    reversed.reverse();
    let mut back = scores(&RunPlan::by_capped_length(reversed, 3));
    back.reverse();
    assert_eq!(back, whole);
}

/// The scores of a batch, from rows of ids and of their mask.
fn scored(ids: &[&[Cell]], mask: &[&[Cell]]) -> Vec<Cell> {
    let (rows, width) = (ids.len(), ids[0].len());
    let (graph, out) = Model::forward(rows as i32, width as i32);
    run(&graph, out, &array(vec![rows, width], ids.concat()), &array(vec![rows, width], mask.concat()))
}

#[test]
fn ids_under_the_mask_change_no_score() {
    let mask: [&[Cell]; 2] = [&[1, 0, 1], &[1, 1, 1]];
    let whole = scored(&[&[4, 9, 2], &[5, 6, 7]], &mask);
    let other = scored(&[&[4, 8, 2], &[5, 6, 3]], &mask);
    assert_eq!(whole[0], other[0]);
    assert_ne!(whole[1], other[1]);
    assert_eq!(scored(&[&[4, 1, 2, 3, 8]], &[&[1, 0, 1, 0, 0]]), vec![whole[0]]);
    assert_ne!(scored(&[&[4, 1, 3]], &[&[1, 0, 1]]), vec![whole[0]]);
}

#[test]
fn layers_read_themselves_and_the_kept_positions() {
    let mut graph = Graph::new();
    let (h, mask) = (graph.op0(Kind::Ids(0)), graph.op0(Kind::Mask(0)));
    let out = Model::layer(&mut graph, h, mask, 3, 2, 3);
    let keep = array(vec![2, 1, 1, 3], vec![0, HIDDEN_KEY, 0, 0, 0, 0]);
    let layer = |seeds: [Cell; 6]| {
        let states = Array::build(vec![2, 3, 2048], |at| {
            mix(seeds[at[0] * 3 + at[1]], at[2] as Cell)
        });
        let all = run(&graph, out, &states, &keep);
        (0..6).map(|k| all[k * 2048..(k + 1) * 2048].to_vec()).collect::<Vec<_>>()
    };
    let whole = layer([1, 2, 3, 4, 5, 6]);
    let other = layer([1, 9, 3, 4, 5, 8]);
    assert!(whole[0] == other[0] && whole[2] == other[2]);
    assert!(whole[1] != other[1] && whole[3] != other[3]);
    assert!(layer([1, 2, 7, 4, 5, 6])[0] != whole[0]);
}
