//! Length-sorted sub-batches: how documents are ordered, grouped and padded.

use crate::order::{before, is_permutation, is_stable_order};
use crate::order::{
    law_stable_order_is_permutation, law_stable_order_is_unique, lemma_permutation_covers,
    stable_order,
};
use crate::tokens::ids_of;
use vstd::arithmetic::div_mod::lemma_fundamental_div_mod;
use vstd::arithmetic::div_mod::lemma_fundamental_div_mod_converse;
use vstd::prelude::*;

verus! {

/// The greatest number of tokens of a document that are read.
pub const MAX_LEN: usize = 512;

/// A token count, cut to the greatest that is read.
pub open spec fn capped(len: int) -> int {
    if len < MAX_LEN {
        len
    } else {
        MAX_LEN as int
    }
}

/// The number of groups of at most `size` among `n` items.
pub open spec fn group_count(n: int, size: int) -> int {
    (n + size - 1) / size
}

/// Group `c` of `items`, cut into runs of `size`; the last run may be shorter.
pub open spec fn group<T>(items: Seq<T>, size: int, c: int) -> Seq<T> {
    items.subrange(
        c * size,
        if (c + 1) * size < items.len() {
            (c + 1) * size
        } else {
            items.len() as int
        },
    )
}

/// Whether `groups` is `items` cut into runs of `size`.
pub open spec fn is_grouping<T>(items: Seq<T>, size: int, groups: Seq<Vec<T>>) -> bool {
    &&& groups.len() == group_count(items.len() as int, size)
    &&& forall|c: int| 0 <= c < groups.len() ==> (#[trigger] groups[c])@ == group(items, size, c)
}

/// The width that rows are padded to: the longest cut length, but at least one.
pub open spec fn padded_width(rows: Seq<Seq<u32>>) -> int
    decreases rows.len(),
{
    if rows.len() == 0 {
        1
    } else {
        let rest = padded_width(rows.drop_last());
        let last = capped(rows.last().len() as int);
        if last > rest {
            last
        } else {
            rest
        }
    }
}

/// The token id in column `c` of a padded row: zero behind the row's cut length.
pub open spec fn id_cell(row: Seq<u32>, c: int) -> i32 {
    if c < capped(row.len() as int) {
        row[c] as i32
    } else {
        0
    }
}

/// The mask in column `c` of a padded row: one for a token, zero behind them.
pub open spec fn mask_cell(row: Seq<u32>, c: int) -> i32 {
    if c < capped(row.len() as int) {
        1
    } else {
        0
    }
}

/// The first `n` token ids of `rows` padded to `width`, row after row.
pub open spec fn padded_ids(rows: Seq<Seq<u32>>, width: int, n: nat) -> Seq<i32> {
    Seq::new(n, |p: int| id_cell(rows[p / width], p % width))
}

/// The first `n` mask values of `rows` padded to `width`, row after row.
pub open spec fn padded_mask(rows: Seq<Seq<u32>>, width: int, n: nat) -> Seq<i32> {
    Seq::new(n, |p: int| mask_cell(rows[p / width], p % width))
}

/// The token ids of the rows that `encs` refers to.
pub open spec fn rows_of(encs: Seq<&Vec<u32>>) -> Seq<Seq<u32>> {
    Seq::new(encs.len(), |i: int| encs[i]@)
}

/// Bounds of a padded width: no row that is read is wider.
pub proof fn lemma_padded_width_bounds(rows: Seq<Seq<u32>>)
    ensures
        1 <= padded_width(rows) <= MAX_LEN,
        forall|r: int|
            0 <= r < rows.len() ==> capped((#[trigger] rows[r]).len() as int) <= padded_width(rows),
    decreases rows.len(),
{
    if rows.len() > 0 {
        lemma_padded_width_bounds(rows.drop_last());
        assert forall|r: int| 0 <= r < rows.len() implies capped((#[trigger] rows[r]).len() as int)
            <= padded_width(rows) by {
            if r < rows.len() - 1 {
                assert(rows.drop_last()[r] == rows[r]);
            }
        }
    }
}

/// Pads the rows `encs` to the longest of them, cut to the greatest length that
/// is read: `ids` and `mask` receive the rows one after another. Returns the
/// number of rows and their width.
pub fn pad_chunk(encs: &Vec<&Vec<u32>>, ids: &mut Vec<i32>, mask: &mut Vec<i32>) -> (r: (
    usize,
    usize,
))
    ensures
        r.0 == encs@.len(),
        r.1 == padded_width(rows_of(encs@)),
        final(ids)@ == padded_ids(rows_of(encs@), r.1 as int, (r.0 * r.1) as nat),
        final(mask)@ == padded_mask(rows_of(encs@), r.1 as int, (r.0 * r.1) as nat),
{
    let b = encs.len();
    let ghost rows = rows_of(encs@);
    let mut maxlen: usize = 1;
    let mut i: usize = 0;
    while i < b
        invariant
            b == encs@.len(),
            rows == rows_of(encs@),
            i <= b,
            maxlen == padded_width(rows.take(i as int)),
        decreases b - i,
    {
        proof {
            assert(rows.take(i + 1).drop_last() =~= rows.take(i as int));
        }
        let len = encs[i].len();
        let n = if len < MAX_LEN {
            len
        } else {
            MAX_LEN
        };
        if n > maxlen {
            maxlen = n;
        }
        i += 1;
    }
    proof {
        assert(rows.take(b as int) =~= rows);
        lemma_padded_width_bounds(rows);
    }
    ids.clear();
    mask.clear();
    let mut bi: usize = 0;
    proof {
        assert(ids@ =~= padded_ids(rows, maxlen as int, 0));
        assert(mask@ =~= padded_mask(rows, maxlen as int, 0));
        assert(0 * maxlen == 0);
    }
    while bi < b
        invariant
            b == encs@.len(),
            rows == rows_of(encs@),
            maxlen == padded_width(rows),
            1 <= maxlen,
            bi <= b,
            ids@ == padded_ids(rows, maxlen as int, (bi * maxlen) as nat),
            mask@ == padded_mask(rows, maxlen as int, (bi * maxlen) as nat),
        decreases b - bi,
    {
        let row: &Vec<u32> = encs[bi];
        let len = row.len();
        let n = if len < MAX_LEN {
            len
        } else {
            MAX_LEN
        };
        proof {
            lemma_padded_width_bounds(rows);
            assert(rows[bi as int] == row@);
        }
        let mut c: usize = 0;
        while c < maxlen
            invariant
                rows == rows_of(encs@),
                bi < rows.len(),
                row@ == rows[bi as int],
                n == capped(row@.len() as int),
                n <= row@.len(),
                n <= maxlen,
                c <= maxlen,
                ids@ == padded_ids(rows, maxlen as int, (bi * maxlen + c) as nat),
                mask@ == padded_mask(rows, maxlen as int, (bi * maxlen + c) as nat),
            decreases maxlen - c,
        {
            let ghost p = bi * maxlen + c;
            proof {
                assert(p >= 0) by (nonlinear_arith)
                    requires
                        p == bi * maxlen + c,
                        bi >= 0,
                        maxlen >= 0,
                        c >= 0,
                ;
                lemma_fundamental_div_mod_converse(p, maxlen as int, bi as int, c as int);
            }
            if c < n {
                ids.push(row[c] as i32);
                mask.push(1);
            } else {
                ids.push(0);
                mask.push(0);
            }
            proof {
                assert(ids@ =~= padded_ids(rows, maxlen as int, (p + 1) as nat));
                assert(mask@ =~= padded_mask(rows, maxlen as int, (p + 1) as nat));
            }
            c += 1;
        }
        proof {
            assert(bi * maxlen + maxlen == (bi + 1) * maxlen) by (nonlinear_arith);
        }
        bi += 1;
    }
    (b, maxlen)
}

/// Cuts `items` into runs of `size`; the last run may be shorter.
pub fn group_indices(items: &Vec<usize>, size: usize) -> (r: Vec<Vec<usize>>)
    requires
        size > 0,
    ensures
        is_grouping(items@, size as int, r@),
{
    let n = items.len();
    let mut groups: Vec<Vec<usize>> = Vec::new();
    let mut i: usize = 0;
    proof {
        assert(0 * size == 0);
    }
    while i < n
        invariant
            n == items@.len(),
            size > 0,
            i <= n,
            i < n ==> i == groups@.len() * size,
            i == n ==> (groups@.len() == 0 && n == 0) || (groups@.len() - 1) * size < n
                <= groups@.len() * size,
            forall|c: int|
                0 <= c < groups@.len() ==> (#[trigger] groups@[c])@ == group(
                    items@,
                    size as int,
                    c,
                ),
        decreases n - i,
    {
        let ghost c = groups@.len() as int;
        let end: usize = if size < n - i {
            i + size
        } else {
            n
        };
        let mut run: Vec<usize> = Vec::new();
        let mut k: usize = i;
        while k < end
            invariant
                i <= k <= end <= n,
                n == items@.len(),
                run@ == items@.subrange(i as int, k as int),
            decreases end - k,
        {
            run.push(items[k]);
            proof {
                assert(run@ =~= items@.subrange(i as int, k + 1));
            }
            k += 1;
        }
        proof {
            assert((c + 1) * size == c * size + size) by (nonlinear_arith);
            assert(run@ == group(items@, size as int, c));
        }
        groups.push(run);
        i = end;
    }
    proof {
        let m = groups@.len() as int;
        let s = size as int;
        if n > 0 {
            let rem = n + s - 1 - m * s;
            assert((m - 1) * s == m * s - s) by (nonlinear_arith);
            lemma_fundamental_div_mod_converse(n + s - 1, s, m, rem);
        } else {
            lemma_fundamental_div_mod_converse(s - 1, s, 0, s - 1);
        }
    }
    groups
}

/// The token counts of `encs`, as sort keys.
pub open spec fn lengths(encs: Seq<Seq<u32>>) -> Seq<i128> {
    Seq::new(encs.len(), |i: int| encs[i].len() as i128)
}

/// The cut token counts of `encs`, as sort keys.
pub open spec fn capped_lengths(encs: Seq<Seq<u32>>) -> Seq<i128> {
    Seq::new(encs.len(), |i: int| capped(encs[i].len() as int) as i128)
}

/// The rows of `encs` that `idx` picks.
pub open spec fn picked(encs: Seq<Seq<u32>>, idx: Seq<usize>) -> Seq<Seq<u32>> {
    Seq::new(idx.len(), |k: int| encs[idx[k] as int])
}

/// Encoded documents in length-sorted sub-batches.
#[derive(Debug)]
pub struct RunPlan {
    /// The token ids of every document, in the documents' own order.
    pub encs: Vec<Vec<u32>>,
    /// The documents by ascending length.
    pub order: Vec<usize>,
    /// That order cut into sub-batches.
    pub chunk_idx: Vec<Vec<usize>>,
    /// The number of documents of a full sub-batch.
    pub size: usize,
}

impl RunPlan {
    /// The order is one of the encoded documents, and the sub-batches are cut from it.
    pub open spec fn wf(&self) -> bool {
        &&& self.size > 0
        &&& is_permutation(self.order@, self.encs@.len())
        &&& is_grouping(self.order@, self.size as int, self.chunk_idx@)
    }

    fn sorted_by(encs: Vec<Vec<u32>>, keys: &Vec<i128>, size: usize) -> (r: Self)
        requires
            size > 0,
            keys@.len() == encs@.len(),
        ensures
            r.encs == encs,
            is_stable_order(keys@, r.order@),
            r.size == size,
            r.wf(),
    {
        let order = stable_order(keys);
        let chunk_idx = group_indices(&order, size);
        proof {
            law_stable_order_is_permutation(keys@, order@);
        }
        RunPlan { encs, order, chunk_idx, size }
    }

    /// Sorts documents by their cut token counts and groups them by `size`.
    pub fn by_capped_length(encs: Vec<Vec<u32>>, size: usize) -> (r: Self)
        requires
            size > 0,
        ensures
            r.encs == encs,
            is_stable_order(capped_lengths(ids_of(encs@)), r.order@),
            r.size == size,
            r.wf(),
    {
        let mut keys: Vec<i128> = Vec::new();
        let mut i: usize = 0;
        while i < encs.len()
            invariant
                i <= encs@.len(),
                keys@ == capped_lengths(ids_of(encs@)).take(i as int),
            decreases encs@.len() - i,
        {
            let len = encs[i].len();
            keys.push(
                if len < MAX_LEN {
                    len as i128
                } else {
                    MAX_LEN as i128
                },
            );
            proof {
                assert(keys@ =~= capped_lengths(ids_of(encs@)).take(i + 1));
            }
            i += 1;
        }
        assert(keys@ =~= capped_lengths(ids_of(encs@)));
        Self::sorted_by(encs, &keys, size)
    }

    /// Sorts documents by their whole token counts and groups them by `size`.
    pub fn by_length(encs: Vec<Vec<u32>>, size: usize) -> (r: Self)
        requires
            size > 0,
        ensures
            r.encs == encs,
            is_stable_order(lengths(ids_of(encs@)), r.order@),
            r.size == size,
            r.wf(),
    {
        let mut keys: Vec<i128> = Vec::new();
        let mut i: usize = 0;
        while i < encs.len()
            invariant
                i <= encs@.len(),
                keys@ == lengths(ids_of(encs@)).take(i as int),
            decreases encs@.len() - i,
        {
            keys.push(encs[i].len() as i128);
            proof {
                assert(keys@ =~= lengths(ids_of(encs@)).take(i + 1));
            }
            i += 1;
        }
        assert(keys@ =~= lengths(ids_of(encs@)));
        Self::sorted_by(encs, &keys, size)
    }

    /// The token ids of the documents of sub-batch `c`.
    pub open spec fn rows(&self, c: int) -> Seq<Seq<u32>> {
        picked(ids_of(self.encs@), self.chunk_idx@[c]@)
    }

    /// Pads the documents of sub-batch `c`; see [`pad_chunk`].
    pub fn pad(&self, c: usize, ids: &mut Vec<i32>, mask: &mut Vec<i32>) -> (r: (usize, usize))
        requires
            c < self.chunk_idx@.len(),
            self.wf(),
        ensures
            r.0 == self.chunk_idx@[c as int]@.len(),
            r.1 == padded_width(self.rows(c as int)),
            final(ids)@ == padded_ids(self.rows(c as int), r.1 as int, (r.0 * r.1) as nat),
            final(mask)@ == padded_mask(self.rows(c as int), r.1 as int, (r.0 * r.1) as nat),
    {
        proof {
            law_each_document_once(self);
        }
        let idx: &Vec<usize> = &self.chunk_idx[c];
        let mut encs: Vec<&Vec<u32>> = Vec::new();
        let mut k: usize = 0;
        while k < idx.len()
            invariant
                c < self.chunk_idx@.len(),
                cells_apart(self.chunk_idx@, self.encs@.len() as int),
                idx@ == self.chunk_idx@[c as int]@,
                k <= idx@.len(),
                encs@.len() == k,
                forall|j: int|
                    0 <= j < k ==> (#[trigger] encs@[j])@ == self.encs@[idx@[j] as int]@,
            decreases idx@.len() - k,
        {
            assert(self.chunk_idx@[c as int]@[k as int] < self.encs@.len());
            encs.push(&self.encs[idx[k]]);
            k += 1;
        }
        proof {
            assert(rows_of(encs@) =~= self.rows(c as int));
        }
        pad_chunk(&encs, ids, mask)
    }

    /// Puts the scores of the sub-batches, one list for each, back in the order of
    /// the documents. `fill` stands for a score that is not known yet; none remains.
    pub fn scores<T: Copy>(&self, per_chunk: &Vec<Vec<T>>, fill: T) -> (r: Vec<T>)
        requires
            self.wf(),
            self.chunk_idx@.len() <= per_chunk@.len(),
            forall|c: int|
                0 <= c < self.chunk_idx@.len() ==> (#[trigger] self.chunk_idx@[c])@.len()
                    <= per_chunk@[c]@.len(),
        ensures
            r@.len() == self.encs@.len(),
            forall|c: int, k: int|
                0 <= c < self.chunk_idx@.len() && 0 <= k < self.chunk_idx@[c]@.len()
                    ==> r@[#[trigger] self.chunk_idx@[c]@[k] as int] == per_chunk@[c]@[k],
    {
        proof {
            law_each_document_once(self);
        }
        place_scores(&self.chunk_idx, per_chunk, self.encs.len(), fill)
    }
}

/// A padded row holds its first tokens, as many as are read, each with mask one;
/// every other cell is zero with mask zero.
pub proof fn law_padding_keeps_tokens(rows: Seq<Seq<u32>>, r: int, c: int)
    requires
        0 <= r < rows.len(),
        0 <= c < padded_width(rows),
    ensures
        ({
            let w = padded_width(rows);
            let n = (rows.len() * w) as nat;
            let p = r * w + c;
            &&& capped(rows[r].len() as int) <= w <= MAX_LEN
            &&& 0 <= p < n
            &&& c < capped(rows[r].len() as int) ==> padded_ids(rows, w, n)[p] == rows[r][c] as i32
                && padded_mask(rows, w, n)[p] == 1
            &&& c >= capped(rows[r].len() as int) ==> padded_ids(rows, w, n)[p] == 0
                && padded_mask(rows, w, n)[p] == 0
        }),
{
    let w = padded_width(rows);
    lemma_padded_width_bounds(rows);
    assert(0 <= r * w + c < rows.len() * w) by (nonlinear_arith)
        requires
            0 <= r < rows.len(),
            0 <= c < w,
    ;
    lemma_fundamental_div_mod_converse(r * w + c, w, r, c);
}

/// Whether two rows agree in every token that is read.
pub open spec fn reads_alike(a: Seq<u32>, b: Seq<u32>) -> bool {
    &&& capped(a.len() as int) == capped(b.len() as int)
    &&& forall|c: int| 0 <= c < capped(a.len() as int) ==> #[trigger] a[c] == b[c]
}

/// Whether two lists of rows agree in every token that is read.
pub open spec fn all_read_alike(a: Seq<Seq<u32>>, b: Seq<Seq<u32>>) -> bool {
    a.len() == b.len() && forall|r: int| 0 <= r < a.len() ==> reads_alike(#[trigger] a[r], b[r])
}

proof fn lemma_width_is_read(a: Seq<Seq<u32>>, b: Seq<Seq<u32>>)
    requires
        all_read_alike(a, b),
    ensures
        padded_width(a) == padded_width(b),
    decreases a.len(),
{
    if a.len() > 0 {
        assert forall|r: int| 0 <= r < a.len() - 1 implies reads_alike(
            #[trigger] a.drop_last()[r],
            b.drop_last()[r],
        ) by {
            assert(reads_alike(a[r], b[r]));
        }
        lemma_width_is_read(a.drop_last(), b.drop_last());
        assert(reads_alike(a[a.len() - 1], b[a.len() - 1]));
    }
}

/// Tokens behind the greatest number that is read are never read: rows that agree
/// up to there give the same padded batch.
pub proof fn law_later_tokens_are_not_read(a: Seq<Seq<u32>>, b: Seq<Seq<u32>>)
    requires
        all_read_alike(a, b),
    ensures
        ({
            let w = padded_width(a);
            let n = (a.len() * w) as nat;
            &&& padded_width(b) == w
            &&& padded_ids(b, w, n) == padded_ids(a, w, n)
            &&& padded_mask(b, w, n) == padded_mask(a, w, n)
        }),
{
    let w = padded_width(a);
    let n = (a.len() * w) as nat;
    lemma_width_is_read(a, b);
    lemma_padded_width_bounds(a);
    assert forall|p: int| 0 <= p < n implies #[trigger] padded_ids(b, w, n)[p] == padded_ids(
        a,
        w,
        n,
    )[p] && padded_mask(b, w, n)[p] == padded_mask(a, w, n)[p] by {
        let (r, c) = (p / w, p % w);
        let m = a.len() as int;
        assert(0 <= r < m && 0 <= c < w) by (nonlinear_arith)
            requires
                r == p / w,
                c == p % w,
                0 <= p < m * w,
                w > 0,
        ;
        assert(reads_alike(a[r], b[r]));
        if c < capped(a[r].len() as int) {
            assert(a[r][c] == b[r][c]);
        }
    }
    assert(padded_ids(b, w, n) =~= padded_ids(a, w, n));
    assert forall|p: int| 0 <= p < n implies #[trigger] padded_mask(b, w, n)[p] == padded_mask(
        a,
        w,
        n,
    )[p] by {
        assert(padded_ids(b, w, n)[p] == padded_ids(a, w, n)[p]);
    }
    assert(padded_mask(b, w, n) =~= padded_mask(a, w, n));
}

/// Nor do they show in the order or the sub-batches of a run: documents that agree
/// up to there are sorted, grouped and padded alike.
pub proof fn law_later_tokens_change_no_plan(a: &RunPlan, b: &RunPlan)
    requires
        a.wf(),
        b.wf(),
        a.size == b.size,
        all_read_alike(ids_of(a.encs@), ids_of(b.encs@)),
        is_stable_order(capped_lengths(ids_of(a.encs@)), a.order@),
        is_stable_order(capped_lengths(ids_of(b.encs@)), b.order@),
    ensures
        a.order@ == b.order@,
        a.chunk_idx@.len() == b.chunk_idx@.len(),
        forall|c: int|
            0 <= c < a.chunk_idx@.len() ==> (#[trigger] a.chunk_idx@[c])@ == b.chunk_idx@[c]@
                && all_read_alike(a.rows(c), b.rows(c)),
{
    let (ea, eb) = (ids_of(a.encs@), ids_of(b.encs@));
    assert forall|i: int| 0 <= i < ea.len() implies #[trigger] capped_lengths(ea)[i]
        == capped_lengths(eb)[i] by {
        assert(reads_alike(ea[i], eb[i]));
    }
    assert(capped_lengths(ea) =~= capped_lengths(eb));
    law_stable_order_is_unique(capped_lengths(ea), a.order@, b.order@);
    assert forall|c: int| 0 <= c < a.chunk_idx@.len() implies (#[trigger] a.chunk_idx@[c])@
        == b.chunk_idx@[c]@ && all_read_alike(a.rows(c), b.rows(c)) by {
        law_each_document_once(a);
        assert forall|r: int| 0 <= r < a.rows(c).len() implies reads_alike(
            #[trigger] a.rows(c)[r],
            b.rows(c)[r],
        ) by {
            assert(a.chunk_idx@[c]@[r] < a.encs@.len());
            assert(reads_alike(ea[a.chunk_idx@[c]@[r] as int], eb[a.chunk_idx@[c]@[r] as int]));
        }
    }
}

/// Whether no two cells of `groups` hold the same number, and all are below `n`.
pub open spec fn cells_apart(groups: Seq<Vec<usize>>, n: int) -> bool {
    &&& forall|c: int, k: int|
        0 <= c < groups.len() && 0 <= k < groups[c]@.len() ==> #[trigger] groups[c]@[k] < n
    &&& forall|c: int, k: int, e: int, l: int|
        0 <= c < groups.len() && 0 <= k < groups[c]@.len() && 0 <= e < groups.len() && 0 <= l
            < groups[e]@.len() && (#[trigger] groups[c]@[k]) == (#[trigger] groups[e]@[l]) ==> c
            == e && k == l
}

/// Whether `groups` holds the number `d`.
pub open spec fn holds(groups: Seq<Vec<usize>>, d: int) -> bool {
    exists|c: int, k: int|
        0 <= c < groups.len() && 0 <= k < groups[c]@.len() && #[trigger] groups[c]@[k] == d
}

/// Where item `p` of a list stands once the list is cut into runs: in run
/// `p / size` at place `p % size`.
pub proof fn lemma_group_place<T>(items: Seq<T>, size: int, p: int)
    requires
        size > 0,
        0 <= p < items.len(),
    ensures
        0 <= p / size < group_count(items.len() as int, size),
        0 <= p % size < group(items, size, p / size).len(),
        group(items, size, p / size)[p % size] == items[p],
{
    let n = items.len() as int;
    let c = p / size;
    lemma_fundamental_div_mod(p, size);
    assert(size * c == c * size) by (nonlinear_arith);
    assert((c + 1) * size == c * size + size) by (nonlinear_arith);
    assert(c >= 0) by (nonlinear_arith)
        requires
            p >= 0,
            size > 0,
            c == p / size,
    ;
    assert(c * size >= 0) by (nonlinear_arith)
        requires
            c >= 0,
            size > 0,
    ;
    let m = group_count(n, size);
    lemma_fundamental_div_mod(n + size - 1, size);
    assert(c < m) by (nonlinear_arith)
        requires
            n + size - 1 == size * m + (n + size - 1) % size,
            0 <= (n + size - 1) % size < size,
            p == size * c + p % size,
            0 <= p % size,
            p < n,
            size > 0,
    ;
}

/// The reverse: place `k` of run `c` holds item `c * size + k`.
pub proof fn lemma_group_cell<T>(items: Seq<T>, size: int, c: int, k: int)
    requires
        size > 0,
        0 <= c < group_count(items.len() as int, size),
        0 <= k < group(items, size, c).len(),
    ensures
        0 <= c * size + k < items.len(),
        k < size,
        group(items, size, c)[k] == items[c * size + k],
        (c * size + k) / size == c,
        (c * size + k) % size == k,
{
    lemma_group_len(items, size, c);
    assert((c + 1) * size == c * size + size) by (nonlinear_arith);
    lemma_fundamental_div_mod_converse(c * size + k, size, c, k);
}

/// The runs are not empty, none is longer than `size`, all but the last have that
/// length, and the last ends with the list.
pub proof fn lemma_group_len<T>(items: Seq<T>, size: int, c: int)
    requires
        size > 0,
        0 <= c < group_count(items.len() as int, size),
    ensures
        0 <= c * size < items.len(),
        1 <= group(items, size, c).len() <= size,
        c + 1 < group_count(items.len() as int, size) ==> group(items, size, c).len() == size,
        c + 1 == group_count(items.len() as int, size) ==> c * size + group(items, size, c).len()
            == items.len(),
{
    let n = items.len() as int;
    let m = group_count(n, size);
    lemma_fundamental_div_mod(n + size - 1, size);
    assert((c + 1) * size == c * size + size) by (nonlinear_arith);
    assert(c * size >= 0) by (nonlinear_arith)
        requires
            c >= 0,
            size > 0,
    ;
    assert(c * size < n) by (nonlinear_arith)
        requires
            n + size - 1 == size * m + (n + size - 1) % size,
            0 <= (n + size - 1) % size < size,
            c + 1 <= m,
            size > 0,
    ;
    if c + 1 < m {
        assert((c + 1) * size < n) by (nonlinear_arith)
            requires
                n + size - 1 == size * m + (n + size - 1) % size,
                0 <= (n + size - 1) % size < size,
                c + 2 <= m,
                size > 0,
        ;
    } else {
        assert((c + 1) * size >= n) by (nonlinear_arith)
            requires
                n + size - 1 == size * m + (n + size - 1) % size,
                0 <= (n + size - 1) % size < size,
                c + 1 == m,
                size > 0,
        ;
    }
}

/// Sub-batches hold at least one document and at most the size asked for; all but
/// the last hold exactly that many.
pub proof fn law_sub_batch_sizes(plan: &RunPlan, c: int)
    requires
        plan.wf(),
        0 <= c < plan.chunk_idx@.len(),
    ensures
        1 <= plan.chunk_idx@[c]@.len() <= plan.size,
        c + 1 < plan.chunk_idx@.len() ==> plan.chunk_idx@[c]@.len() == plan.size,
{
    lemma_group_len(plan.order@, plan.size as int, c);
}

/// Every document is in exactly one sub-batch, at exactly one place.
pub proof fn law_each_document_once(plan: &RunPlan)
    requires
        plan.wf(),
    ensures
        cells_apart(plan.chunk_idx@, plan.encs@.len() as int),
        forall|d: int| 0 <= d < plan.encs@.len() ==> #[trigger] holds(plan.chunk_idx@, d),
{
    let groups = plan.chunk_idx@;
    let order = plan.order@;
    let size = plan.size as int;
    let n = plan.encs@.len();
    assert forall|c: int, k: int|
        0 <= c < groups.len() && 0 <= k < groups[c]@.len() implies #[trigger] groups[c]@[k]
        < n by {
        lemma_group_cell(order, size, c, k);
    }
    assert forall|c: int, k: int, e: int, l: int|
        0 <= c < groups.len() && 0 <= k < groups[c]@.len() && 0 <= e < groups.len() && 0 <= l
            < groups[e]@.len() && (#[trigger] groups[c]@[k]) == (#[trigger] groups[e]@[l]) implies c
        == e && k == l by {
        lemma_group_cell(order, size, c, k);
        lemma_group_cell(order, size, e, l);
    }
    assert forall|d: int| 0 <= d < n implies #[trigger] holds(groups, d) by {
        lemma_permutation_covers(order, n, d);
        let p = choose|p: int| 0 <= p < n && #[trigger] order[p] == d;
        lemma_group_place(order, size, p);
        assert(groups[p / size]@[p % size] == d);
    }
}

/// Puts the scores of every group back at the positions that the group names;
/// positions that no group names hold `fill`.
pub fn place_scores<T: Copy>(
    groups: &Vec<Vec<usize>>,
    per_group: &Vec<Vec<T>>,
    n: usize,
    fill: T,
) -> (r: Vec<T>)
    requires
        cells_apart(groups@, n as int),
        groups@.len() <= per_group@.len(),
        forall|c: int|
            0 <= c < groups@.len() ==> (#[trigger] groups@[c])@.len() <= per_group@[c]@.len(),
    ensures
        r@.len() == n,
        forall|c: int, k: int|
            0 <= c < groups@.len() && 0 <= k < groups@[c]@.len() ==> r@[#[trigger] groups@[c]@[k] as int]
                == per_group@[c]@[k],
        forall|d: int| 0 <= d < n && !holds(groups@, d) ==> #[trigger] r@[d] == fill,
{
    let mut out: Vec<T> = Vec::new();
    let mut d: usize = 0;
    while d < n
        invariant
            d <= n,
            out@.len() == d,
            forall|e: int| 0 <= e < d ==> #[trigger] out@[e] == fill,
        decreases n - d,
    {
        out.push(fill);
        d += 1;
    }
    let mut c: usize = 0;
    while c < groups.len()
        invariant
            c <= groups@.len(),
            out@.len() == n,
            cells_apart(groups@, n as int),
            groups@.len() <= per_group@.len(),
            forall|e: int|
                0 <= e < groups@.len() ==> (#[trigger] groups@[e])@.len() <= per_group@[e]@.len(),
            forall|e: int, l: int|
                0 <= e < c && 0 <= l < groups@[e]@.len() ==> out@[#[trigger] groups@[e]@[l] as int]
                    == per_group@[e]@[l],
            forall|e: int| 0 <= e < n && !holds(groups@, e) ==> #[trigger] out@[e] == fill,
        decreases groups@.len() - c,
    {
        let idx: &Vec<usize> = &groups[c];
        let scores: &Vec<T> = &per_group[c];
        let mut k: usize = 0;
        while k < idx.len()
            invariant
                c < groups@.len(),
                idx@ == groups@[c as int]@,
                scores@ == per_group@[c as int]@,
                idx@.len() <= scores@.len(),
                k <= idx@.len(),
                out@.len() == n,
                cells_apart(groups@, n as int),
                forall|e: int, l: int|
                    0 <= e < c && 0 <= l < groups@[e]@.len() ==> out@[#[trigger] groups@[e]@[l] as int]
                        == per_group@[e]@[l],
                forall|l: int|
                    0 <= l < k ==> out@[#[trigger] groups@[c as int]@[l] as int] == scores@[l],
                forall|e: int| 0 <= e < n && !holds(groups@, e) ==> #[trigger] out@[e] == fill,
            decreases idx@.len() - k,
        {
            let at = idx[k];
            assert(groups@[c as int]@[k as int] == at);
            assert(holds(groups@, at as int));
            out[at] = scores[k];
            k += 1;
        }
        c += 1;
    }
    out
}

/// However the documents were ordered and grouped, the scores come back in the
/// documents' own order: where every score of a sub-batch is what `f` gives for
/// the document at its place, score `d` of the result is what `f` gives for
/// document `d`. The size of the sub-batches does not show in it.
pub proof fn law_scores_in_original_order<T>(
    plan: &RunPlan,
    per_group: Seq<Vec<T>>,
    scores: Seq<T>,
    f: spec_fn(int) -> T,
)
    requires
        plan.wf(),
        scores.len() == plan.encs@.len(),
        forall|c: int, k: int|
            0 <= c < plan.chunk_idx@.len() && 0 <= k < plan.chunk_idx@[c]@.len()
                ==> scores[#[trigger] plan.chunk_idx@[c]@[k] as int] == per_group[c]@[k],
        forall|c: int, k: int|
            0 <= c < plan.chunk_idx@.len() && 0 <= k < plan.chunk_idx@[c]@.len()
                ==> #[trigger] per_group[c]@[k] == f(plan.chunk_idx@[c]@[k] as int),
    ensures
        scores == Seq::new(plan.encs@.len(), f),
{
    law_each_document_once(plan);
    let groups = plan.chunk_idx@;
    assert forall|d: int| 0 <= d < scores.len() implies scores[d] == f(d) by {
        assert(holds(groups, d));
        let (c, k) = choose|c: int, k: int|
            0 <= c < groups.len() && 0 <= k < groups[c]@.len() && #[trigger] groups[c]@[k] == d;
        assert(per_group[c]@[k] == f(groups[c]@[k] as int));
    }
    assert(scores =~= Seq::new(plan.encs@.len(), f));
}

proof fn lemma_width_of_sorted(rows: Seq<Seq<u32>>)
    requires
        rows.len() > 0,
        forall|i: int, j: int|
            0 <= i < j < rows.len() ==> capped((#[trigger] rows[i]).len() as int) <= capped(
                (#[trigger] rows[j]).len() as int,
            ),
    ensures
        padded_width(rows) == if capped(rows.last().len() as int) < 1 {
            1
        } else {
            capped(rows.last().len() as int)
        },
    decreases rows.len(),
{
    let rest = rows.drop_last();
    if rest.len() > 0 {
        assert forall|i: int, j: int| 0 <= i < j < rest.len() implies capped(
            (#[trigger] rest[i]).len() as int,
        ) <= capped((#[trigger] rest[j]).len() as int) by {
            assert(rest[i] == rows[i] && rest[j] == rows[j]);
        }
        lemma_width_of_sorted(rest);
        assert(rest.last() == rows[rows.len() - 2]);
        assert(rows.last() == rows[rows.len() - 1]);
    } else {
        assert(padded_width(rest) == 1);
    }
}

/// In a length-sorted plan a sub-batch is padded to its last document, and no
/// sub-batch is wider than the next.
pub proof fn law_sub_batch_widths_ascend(plan: &RunPlan, c: int)
    requires
        plan.wf(),
        is_stable_order(capped_lengths(ids_of(plan.encs@)), plan.order@) || is_stable_order(
            lengths(ids_of(plan.encs@)),
            plan.order@,
        ),
        0 <= c < plan.chunk_idx@.len(),
    ensures
        plan.rows(c).len() > 0,
        padded_width(plan.rows(c)) == if capped(plan.rows(c).last().len() as int) < 1 {
            1
        } else {
            capped(plan.rows(c).last().len() as int)
        },
        c + 1 < plan.chunk_idx@.len() ==> padded_width(plan.rows(c)) <= padded_width(
            plan.rows(c + 1),
        ),
{
    let order = plan.order@;
    let size = plan.size as int;
    let encs = ids_of(plan.encs@);
    lemma_group_len(order, size, c);
    assert forall|i: int, j: int| 0 <= i < j < order.len() implies capped(
        encs[#[trigger] order[i] as int].len() as int,
    ) <= capped(encs[#[trigger] order[j] as int].len() as int) by {
        if is_stable_order(capped_lengths(encs), order) {
            assert(before(capped_lengths(encs), order[i] as int, order[j] as int));
        } else {
            assert(before(lengths(encs), order[i] as int, order[j] as int));
            assert(encs[order[i] as int].len() == plan.encs@[order[i] as int].len());
            assert(encs[order[j] as int].len() == plan.encs@[order[j] as int].len());
        }
    }
    lemma_rows_sorted(plan, c);
    lemma_width_of_sorted(plan.rows(c));
    if c + 1 < plan.chunk_idx@.len() {
        lemma_group_len(order, size, c + 1);
        lemma_rows_sorted(plan, c + 1);
        lemma_width_of_sorted(plan.rows(c + 1));
        let k = plan.chunk_idx@[c]@.len() - 1;
        let l = plan.chunk_idx@[c + 1]@.len() - 1;
        lemma_group_cell(order, size, c, k);
        lemma_group_cell(order, size, c + 1, l);
        assert((c + 1) * size == c * size + size) by (nonlinear_arith);
        assert(plan.rows(c).last() == encs[order[c * size + k] as int]);
        assert(plan.rows(c + 1).last() == encs[order[(c + 1) * size + l] as int]);
    }
}

proof fn lemma_rows_sorted(plan: &RunPlan, c: int)
    requires
        plan.wf(),
        0 <= c < plan.chunk_idx@.len(),
        forall|i: int, j: int|
            0 <= i < j < plan.order@.len() ==> capped(
                ids_of(plan.encs@)[#[trigger] plan.order@[i] as int].len() as int,
            ) <= capped(ids_of(plan.encs@)[#[trigger] plan.order@[j] as int].len() as int),
    ensures
        forall|i: int, j: int|
            0 <= i < j < plan.rows(c).len() ==> capped((#[trigger] plan.rows(c)[i]).len() as int)
                <= capped((#[trigger] plan.rows(c)[j]).len() as int),
{
    let rows = plan.rows(c);
    let size = plan.size as int;
    assert forall|i: int, j: int| 0 <= i < j < rows.len() implies capped(
        (#[trigger] rows[i]).len() as int,
    ) <= capped((#[trigger] rows[j]).len() as int) by {
        lemma_group_cell(plan.order@, size, c, i);
        lemma_group_cell(plan.order@, size, c, j);
        assert(rows[i] == ids_of(plan.encs@)[plan.order@[c * size + i] as int]);
        assert(rows[j] == ids_of(plan.encs@)[plan.order@[c * size + j] as int]);
    }
}

} // verus!
