use vstd::prelude::*;
use vstd::multiset::Multiset;
use crate::control_flow_graph::{instruction_views, refs_below, BasicBlock, ControlFlowGraph};

verus! {

broadcast use vstd::multiset::group_multiset_axioms, vstd::multiset::group_multiset_properties,
    vstd::seq_lib::group_to_multiset_ensures;

/// Fixed-point unit of every similarity: `SCALE` stands for 1.0.
pub const SCALE: u64 = 1_000_000_000;

/// Every index is below `n`.
pub open spec fn indices_below(idx: Seq<usize>, n: int) -> bool {
    forall|k: int| 0 <= k < idx.len() ==> (#[trigger] idx[k]) < n
}

/// The instruction byte strings of the listed blocks, in list order, then in
/// program order.
pub open spec fn stream(blocks: Seq<BasicBlock>, idx: Seq<usize>) -> Seq<Seq<u8>>
    decreases idx.len(),
{
    if idx.len() == 0 {
        Seq::empty()
    } else {
        stream(blocks, idx.drop_last()) + instruction_views(blocks[idx.last() as int].instructions@)
    }
}

/// Size of the common part of two bags of instructions, duplicates counted.
pub open spec fn common_count(xs: Seq<Seq<u8>>, ys: Seq<Seq<u8>>) -> nat {
    xs.to_multiset().intersection_with(ys.to_multiset()).len()
}

/// `n / d` rounded to the nearest integer, halves up.
pub open spec fn div_round(n: int, d: int) -> int {
    n / d + if 2 * (n % d) >= d { 1int } else { 0int }
}

/// Rounding a quotient of at most `m` stays between 0 and `m`.
/// `n / d` rounded to nearest, halves up; `n` below 2^126.
pub fn round_div(n: u128, d: u128) -> (r: u128)
    requires
        d > 0,
        n < 0x4000_0000_0000_0000_0000_0000_0000_0000,
    ensures
        r == div_round(n as int, d as int),
{
    let q = n / d;
    let rem = n % d;
    assert(q <= n) by (nonlinear_arith)
        requires d > 0, q == n / d, n >= 0;
    if rem >= d - rem {
        q + 1
    } else {
        q
    }
}

pub proof fn lemma_div_round_bound(n: int, d: int, m: int)
    requires
        0 <= n <= d * m,
        d > 0,
        m >= 0,
    ensures
        0 <= div_round(n, d) <= m,
{
    let q = n / d;
    let r = n % d;
    assert(n == d * q + r && 0 <= r < d) by (nonlinear_arith)
        requires d > 0, q == n / d, r == n % d;
    assert(q >= 0) by (nonlinear_arith)
        requires n >= 0, d > 0, q == n / d;
    if q > m {
        assert(d * q >= d * (m + 1)) by (nonlinear_arith)
            requires q >= m + 1, d > 0;
        assert(d * (m + 1) == d * m + d) by (nonlinear_arith);
    }
    if q == m {
        assert(r == 0);
    }
}

/// `num / den` in units of `SCALE`, rounded to nearest (halves up); 1.0
/// when `den` is zero.
pub open spec fn ratio(num: int, den: int) -> int {
    if den == 0 {
        SCALE as int
    } else {
        div_round(num * SCALE, den)
    }
}

/// Jaccard similarity of two bags of instructions, duplicates counted as
/// distinct elements: common part over union.
pub open spec fn bag_similarity(xs: Seq<Seq<u8>>, ys: Seq<Seq<u8>>) -> int {
    let c = common_count(xs, ys);
    ratio(c as int, xs.len() + ys.len() - c)
}

/// A position (block, instruction) that exists in `blocks`.
pub open spec fn position_valid(blocks: Seq<BasicBlock>, p: (usize, usize)) -> bool {
    p.0 < blocks.len() && p.1 < blocks[p.0 as int].instructions@.len()
}

/// Bytes of the instruction at a position.
pub open spec fn bytes_at(blocks: Seq<BasicBlock>, p: (usize, usize)) -> Seq<u8> {
    blocks[p.0 as int].instructions@[p.1 as int].bytes@
}

/// Bytes of the instructions at a list of positions.
pub open spec fn positions_view(blocks: Seq<BasicBlock>, ps: Seq<(usize, usize)>) -> Seq<Seq<u8>> {
    ps.map_values(|p: (usize, usize)| bytes_at(blocks, p))
}

pub open spec fn positions_valid(blocks: Seq<BasicBlock>, ps: Seq<(usize, usize)>) -> bool {
    forall|k: int| 0 <= k < ps.len() ==> position_valid(blocks, #[trigger] ps[k])
}

/// Lists, without copying any bytes, the positions of the instructions of the
/// listed blocks, in list order, then in program order.
pub fn stream_positions(blocks: &Vec<BasicBlock>, idx: &Vec<usize>) -> (r: Vec<(usize, usize)>)
    requires
        indices_below(idx@, blocks@.len() as int),
    ensures
        positions_valid(blocks@, r@),
        positions_view(blocks@, r@) == stream(blocks@, idx@),
{
    let mut out: Vec<(usize, usize)> = Vec::new();
    let mut i: usize = 0;
    while i < idx.len()
        invariant
            i <= idx@.len(),
            indices_below(idx@, blocks@.len() as int),
            positions_valid(blocks@, out@),
            positions_view(blocks@, out@) == stream(blocks@, idx@.take(i as int)),
        decreases idx@.len() - i,
    {
        let b = idx[i];
        let n = blocks[b].instructions.len();
        let mut k: usize = 0;
        let ghost before = positions_view(blocks@, out@);
        while k < n
            invariant
                k <= n,
                b < blocks@.len(),
                n == blocks@[b as int].instructions@.len(),
                positions_valid(blocks@, out@),
                positions_view(blocks@, out@) == before + instruction_views(blocks@[b as int].instructions@).take(k as int),
            decreases n - k,
        {
            let ghost prev = out@;
            out.push((b, k));
            assert(positions_view(blocks@, out@) =~= positions_view(blocks@, prev).push(bytes_at(blocks@, (b, k))));
            assert(instruction_views(blocks@[b as int].instructions@).take(k as int + 1)
                =~= instruction_views(blocks@[b as int].instructions@).take(k as int).push(bytes_at(blocks@, (b, k))));
            k = k + 1;
        }
        assert(instruction_views(blocks@[b as int].instructions@).take(k as int)
            =~= instruction_views(blocks@[b as int].instructions@));
        assert(idx@.take(i as int + 1).drop_last() =~= idx@.take(i as int));
        i = i + 1;
    }
    assert(idx@.take(i as int) =~= idx@);
    out
}

/// Whether two byte strings are equal.
pub fn same_bytes(a: &Vec<u8>, b: &Vec<u8>) -> (r: bool)
    ensures
        r == (a@ == b@),
{
    if a.len() != b.len() {
        return false;
    }
    let mut k: usize = 0;
    while k < a.len()
        invariant
            k <= a@.len(),
            a@.len() == b@.len(),
            forall|j: int| 0 <= j < k ==> a@[j] == b@[j],
        decreases a@.len() - k,
    {
        if a[k] != b[k] {
            return false;
        }
        k = k + 1;
    }
    assert(a@ =~= b@);
    true
}

/// The common part of two bags is no larger than either of them.
pub proof fn lemma_common_bounded(xs: Seq<Seq<u8>>, ys: Seq<Seq<u8>>)
    ensures
        common_count(xs, ys) <= xs.len(),
        common_count(xs, ys) <= ys.len(),
        common_count(xs, ys) == common_count(ys, xs),
{
    let a = xs.to_multiset();
    let b = ys.to_multiset();
    let i = a.intersection_with(b);
    assert(i.subset_of(a));
    assert(i.subset_of(b));
    assert(a.sub(i).len() == a.len() - i.len());
    assert(b.sub(i).len() == b.len() - i.len());
    assert(i =~= b.intersection_with(a));
}

/// Similarity of two bags never exceeds 1.0 and does not depend on their order.
pub proof fn lemma_bag_similarity_range(xs: Seq<Seq<u8>>, ys: Seq<Seq<u8>>)
    ensures
        0 <= bag_similarity(xs, ys) <= SCALE,
        bag_similarity(xs, ys) == bag_similarity(ys, xs),
{
    lemma_common_bounded(xs, ys);
    let c = common_count(xs, ys) as int;
    let u = xs.len() + ys.len() - c;
    if u != 0 {
        assert(c <= u);
        assert(c * SCALE <= u * SCALE) by (nonlinear_arith)
            requires c <= u, c >= 0;
        assert(c * SCALE >= 0) by (nonlinear_arith)
            requires c >= 0;
        lemma_div_round_bound(c * SCALE, u, SCALE as int);
    }
}

/// Counts the instructions the two bags have in common, each instruction
/// matched at most once.
pub(crate) fn count_common(
    xb: &Vec<BasicBlock>,
    xs: &Vec<(usize, usize)>,
    yb: &Vec<BasicBlock>,
    ys: &Vec<(usize, usize)>,
) -> (r: usize)
    requires
        positions_valid(xb@, xs@),
        positions_valid(yb@, ys@),
    ensures
        r == common_count(positions_view(xb@, xs@), positions_view(yb@, ys@)),
{
    let ghost xv = positions_view(xb@, xs@);
    let ghost yv = positions_view(yb@, ys@);
    let ghost ym = yv.to_multiset();
    let mut other: Vec<usize> = Vec::new();
    let mut k: usize = 0;
    while k < ys.len()
        invariant
            k <= ys@.len(),
            other@ == Seq::new(k as nat, |j: int| j as usize),
        decreases ys@.len() - k,
    {
        other.push(k);
        assert(other@ =~= Seq::new(k as nat + 1, |j: int| j as usize));
        k = k + 1;
    }
    assert(other@.map_values(|j: usize| yv[j as int]) =~= yv);
    assert(xv.take(0) =~= Seq::<Seq<u8>>::empty());
    assert(xv.take(0).to_multiset() =~= Multiset::<Seq<u8>>::empty());
    assert(Multiset::<Seq<u8>>::empty().intersection_with(ym) =~= Multiset::<Seq<u8>>::empty());
    assert(ym.sub(Multiset::<Seq<u8>>::empty()) =~= ym);
    let ny: usize = ys.len();
    let mut common: usize = 0;
    let mut i: usize = 0;
    while i < xs.len()
        invariant
            i <= xs@.len(),
            xv == positions_view(xb@, xs@),
            yv == positions_view(yb@, ys@),
            ym == yv.to_multiset(),
            positions_valid(xb@, xs@),
            positions_valid(yb@, ys@),
            forall|j: int| 0 <= j < other@.len() ==> (#[trigger] other@[j]) < ys@.len(),
            other@.len() + common == ys@.len(),
            ny == ys@.len(),
            common == xv.take(i as int).to_multiset().intersection_with(ym).len(),
            other@.map_values(|j: usize| yv[j as int]).to_multiset()
                == ym.sub(xv.take(i as int).to_multiset().intersection_with(ym)),
        decreases xs@.len() - i,
    {
        let p = xs[i];
        let ghost x = xv[i as int];
        let ghost ov = other@.map_values(|j: usize| yv[j as int]);
        let ghost pm = xv.take(i as int).to_multiset();
        let ghost im = pm.intersection_with(ym);
        assert(xv.take(i as int + 1) =~= xv.take(i as int).push(x));
        assert(xv.take(i as int + 1).to_multiset() =~= pm.insert(x));
        let mut found: bool = false;
        let mut at: usize = 0;
        let mut j: usize = 0;
        while j < other.len()
            invariant
                j <= other@.len(),
                xv == positions_view(xb@, xs@),
                yv == positions_view(yb@, ys@),
                i < xs@.len(),
                x == xv[i as int],
                p == xs@[i as int],
                positions_valid(xb@, xs@),
                positions_valid(yb@, ys@),
                forall|m: int| 0 <= m < other@.len() ==> (#[trigger] other@[m]) < ys@.len(),
                ov == other@.map_values(|j: usize| yv[j as int]),
                other@.len() + common == ys@.len(),
                found ==> at < other@.len() && ov[at as int] == x,
                !found ==> forall|m: int| 0 <= m < j ==> ov[m] != x,
            ensures
                other@.len() + common == ys@.len(),
                ov == other@.map_values(|j: usize| yv[j as int]),
                found ==> at < other@.len() && ov[at as int] == x,
                !found ==> forall|m: int| 0 <= m < other@.len() ==> ov[m] != x,
            decreases other@.len() - j + (if found { 0int } else { 1int }),
        {
            let q = ys[other[j]];
            assert(position_valid(yb@, q));
            assert(position_valid(xb@, p));
            if same_bytes(&xb[p.0].instructions[p.1].bytes, &yb[q.0].instructions[q.1].bytes) {
                found = true;
                at = j;
                break;
            }
            j = j + 1;
        }
        if found {
            assert(ov.contains(x));
            assert(ov.to_multiset().count(x) > 0);
            other.remove(at);
            assert(other@.map_values(|j: usize| yv[j as int]) =~= ov.remove(at as int));
            assert(pm.insert(x).intersection_with(ym) =~= im.insert(x));
            assert(ym.sub(im).remove(x) =~= ym.sub(im.insert(x)));
            assert(other@.len() + common + 1 == ys@.len());
            common = common + 1;
        } else {
            assert(forall|m: int| 0 <= m < ov.len() ==> ov[m] != x);
            assert(!ov.contains(x));
            assert(pm.insert(x).intersection_with(ym) =~= im);
        }
        i = i + 1;
    }
    assert(xv.take(i as int) =~= xv);
    common
}


/// Every edge of every block stays inside the block list.
pub open spec fn blocks_wf(blocks: Seq<BasicBlock>) -> bool {
    forall|i: int| 0 <= i < blocks.len() ==> refs_below(#[trigger] blocks[i], blocks.len() as int)
}

/// Similarity of block `i` of `l` to block `j` of `r`: their own
/// instructions weigh twice, those of their predecessors and of their
/// successors once each.
pub open spec fn block_similarity(l: Seq<BasicBlock>, i: int, r: Seq<BasicBlock>, j: int) -> int {
    let local = if l[i].hash == r[j].hash {
        SCALE as int
    } else {
        bag_similarity(instruction_views(l[i].instructions@), instruction_views(r[j].instructions@))
    };
    let prev = bag_similarity(stream(l, l[i].in_refs@), stream(r, r[j].in_refs@));
    let next = bag_similarity(stream(l, l[i].out_refs@), stream(r, r[j].out_refs@));
    div_round(2 * local + prev + next, 4)
}

/// Best similarity of block `i` of `l` to the first `n` blocks of `r`; 0 when
/// there are none.
pub open spec fn best_match(l: Seq<BasicBlock>, i: int, r: Seq<BasicBlock>, n: int) -> int
    decreases n,
{
    if n <= 0 {
        0
    } else {
        let b = best_match(l, i, r, n - 1);
        let s = block_similarity(l, i, r, n - 1);
        if s > b {
            s
        } else {
            b
        }
    }
}

/// For each block of `l`, its best similarity to a block of `r`.
pub open spec fn best_matches(l: Seq<BasicBlock>, r: Seq<BasicBlock>) -> Seq<int> {
    Seq::new(l.len(), |i: int| best_match(l, i, r, r.len() as int))
}

/// Index of the first largest value.
pub open spec fn first_max_index(s: Seq<int>) -> int
    decreases s.len(),
{
    if s.len() <= 1 {
        0
    } else {
        let m = first_max_index(s.drop_last());
        if s.last() > s[m] {
            s.len() - 1
        } else {
            m
        }
    }
}

/// Sum of the `k` largest values (of all of them when there are fewer).
pub open spec fn sum_of_largest(s: Seq<int>, k: nat) -> int
    decreases k,
{
    if k == 0 || s.len() == 0 {
        0
    } else {
        let m = first_max_index(s);
        s[m] + sum_of_largest(s.remove(m), (k - 1) as nat)
    }
}

/// Similarity of two control flow graphs: 1.0 when their fingerprints agree;
/// else the mean of the `k` best per-block similarities of `a`'s blocks,
/// `k` being the smaller block count (0 when a graph has no block).
pub open spec fn graph_similarity(a: ControlFlowGraph, b: ControlFlowGraph) -> int {
    if a.hash == b.hash {
        SCALE as int
    } else {
        let k = if a.blocks@.len() < b.blocks@.len() { a.blocks@.len() } else { b.blocks@.len() };
        if k == 0 {
            0
        } else {
            div_round(sum_of_largest(best_matches(a.blocks@, b.blocks@), k), k as int)
        }
    }
}

/// All values lie in `[0, SCALE]`.
pub open spec fn all_in_range(s: Seq<int>) -> bool {
    forall|k: int| 0 <= k < s.len() ==> 0 <= #[trigger] s[k] <= SCALE
}

pub proof fn lemma_first_max_index(s: Seq<int>)
    requires
        s.len() > 0,
    ensures
        0 <= first_max_index(s) < s.len(),
        forall|k: int| 0 <= k < s.len() ==> #[trigger] s[k] <= s[first_max_index(s)],
    decreases s.len(),
{
    if s.len() > 1 {
        let t = s.drop_last();
        lemma_first_max_index(t);
        let m = first_max_index(t);
        assert forall|k: int| 0 <= k < s.len() implies #[trigger] s[k] <= s[first_max_index(s)] by {
            if k < s.len() - 1 {
                assert(s[k] == t[k]);
                assert(t[k] <= t[m]);
            }
        }
    }
}

/// The sum of the `k` largest values in `[0, SCALE]` is between 0 and
/// `k * SCALE`.
pub proof fn lemma_sum_of_largest_range(s: Seq<int>, k: nat)
    requires
        all_in_range(s),
    ensures
        0 <= sum_of_largest(s, k) <= k * SCALE,
    decreases k,
{
    if k > 0 && s.len() > 0 {
        let m = first_max_index(s);
        lemma_first_max_index(s);
        assert(all_in_range(s.remove(m)));
        lemma_sum_of_largest_range(s.remove(m), (k - 1) as nat);
        assert((k - 1) as nat * SCALE + SCALE == k * SCALE) by (nonlinear_arith)
            requires k >= 1;
    }
}

pub proof fn lemma_block_similarity_range(l: Seq<BasicBlock>, i: int, r: Seq<BasicBlock>, j: int)
    ensures
        0 <= block_similarity(l, i, r, j) <= SCALE,
{
    lemma_bag_similarity_range(instruction_views(l[i].instructions@), instruction_views(r[j].instructions@));
    lemma_bag_similarity_range(stream(l, l[i].in_refs@), stream(r, r[j].in_refs@));
    lemma_bag_similarity_range(stream(l, l[i].out_refs@), stream(r, r[j].out_refs@));
    let local = if l[i].hash == r[j].hash {
        SCALE as int
    } else {
        bag_similarity(instruction_views(l[i].instructions@), instruction_views(r[j].instructions@))
    };
    let prev = bag_similarity(stream(l, l[i].in_refs@), stream(r, r[j].in_refs@));
    let next = bag_similarity(stream(l, l[i].out_refs@), stream(r, r[j].out_refs@));
    lemma_div_round_bound(2 * local + prev + next, 4, SCALE as int);
}

pub proof fn lemma_best_match_range(l: Seq<BasicBlock>, i: int, r: Seq<BasicBlock>, n: int)
    ensures
        0 <= best_match(l, i, r, n) <= SCALE,
    decreases n,
{
    if n > 0 {
        lemma_best_match_range(l, i, r, n - 1);
        lemma_block_similarity_range(l, i, r, n - 1);
    }
}

/// Every graph similarity lies in `[0, SCALE]`.
pub proof fn lemma_graph_similarity_range(a: ControlFlowGraph, b: ControlFlowGraph)
    ensures
        0 <= graph_similarity(a, b) <= SCALE,
{
    let l = a.blocks@;
    let r = b.blocks@;
    let k = if l.len() < r.len() { l.len() } else { r.len() };
    if a.hash != b.hash && k > 0 {
        let s = best_matches(l, r);
        assert forall|x: int| 0 <= x < s.len() implies 0 <= #[trigger] s[x] <= SCALE by {
            lemma_best_match_range(l, x, r, r.len() as int);
        }
        lemma_sum_of_largest_range(s, k);
        let t = sum_of_largest(s, k);
        lemma_div_round_bound(t, k as int, SCALE as int);
    }
}

} // verus!
