use vstd::prelude::*;
use crate::control_flow_graph::{hash_bytes, instruction_views, instruction_bytes, BasicBlock, ControlFlowGraph};
use crate::disassembly::Disassembly;
use crate::grapher::{lemma_pick, pick, set_matches};
use crate::matching::{mean_similarity, similarity_sum, MatchView};
use crate::similarity::{
    best_match, best_matches, block_similarity, first_max_index, graph_similarity, lemma_bag_similarity_range,
    lemma_div_round_bound, lemma_graph_similarity_range, stream, sum_of_largest, SCALE,
};

verus! {

/// A graph is perfectly similar to itself.
pub proof fn lemma_self_similarity(g: ControlFlowGraph)
    ensures
        graph_similarity(g, g) == SCALE,
{
}

/// Matching a binary against itself: every graph finds a match, and every
/// match is perfect, whatever threshold up to 1.0.
pub proof fn lemma_self_match(d: Disassembly, threshold: u64)
    requires
        threshold <= SCALE,
    ensures
        set_matches(d.graphs@, d.graphs@, threshold, d.graphs@.len() as int).len() == d.graphs@.len(),
        forall|k: int| 0 <= k < d.graphs@.len() ==>
            (#[trigger] set_matches(d.graphs@, d.graphs@, threshold, d.graphs@.len() as int)[k]).4 == SCALE,
{
    lemma_self_match_prefix(d.graphs@, threshold, d.graphs@.len() as int);
}

proof fn lemma_self_match_prefix(gs: Seq<ControlFlowGraph>, threshold: u64, n: int)
    requires
        threshold <= SCALE,
        0 <= n <= gs.len(),
    ensures
        set_matches(gs, gs, threshold, n).len() == n,
        forall|k: int| 0 <= k < n ==> (#[trigger] set_matches(gs, gs, threshold, n)[k]).4 == SCALE,
    decreases n,
{
    if n > 0 {
        lemma_self_match_prefix(gs, threshold, n - 1);
        let g = gs[n - 1];
        lemma_pick(g, gs, threshold, gs.len() as int);
        assert(graph_similarity(g, gs[n - 1]) == SCALE);
        let i = pick(g, gs, threshold, gs.len() as int).unwrap();
        lemma_graph_similarity_range(g, gs[i]);
        assert(graph_similarity(g, gs[i]) == SCALE);
    }
}

/// Comparing a binary with at least one function against itself gives a
/// perfect mean similarity, whatever threshold up to 1.0.
pub proof fn lemma_self_compare(d: Disassembly, threshold: u64)
    requires
        threshold <= SCALE,
        d.graphs@.len() > 0,
    ensures
        mean_similarity(set_matches(d.graphs@, d.graphs@, threshold, d.graphs@.len() as int)) == Some(SCALE as int),
{
    lemma_self_match(d, threshold);
    lemma_perfect_mean(set_matches(d.graphs@, d.graphs@, threshold, d.graphs@.len() as int));
}

/// Matches that are all perfect have a perfect mean.
pub proof fn lemma_perfect_mean(ms: Seq<MatchView>)
    requires
        ms.len() > 0,
        forall|k: int| 0 <= k < ms.len() ==> (#[trigger] ms[k]).4 == SCALE,
    ensures
        mean_similarity(ms) == Some(SCALE as int),
{
    lemma_sum_of_equal(ms);
    let n = ms.len() as int;
    assert((n * SCALE) / n == SCALE && (n * SCALE) % n == 0) by (nonlinear_arith)
        requires n > 0;
}

proof fn lemma_sum_of_equal(ms: Seq<MatchView>)
    requires
        forall|k: int| 0 <= k < ms.len() ==> (#[trigger] ms[k]).4 == SCALE,
    ensures
        similarity_sum(ms) == ms.len() * SCALE,
    decreases ms.len(),
{
    if ms.len() > 0 {
        let t = ms.drop_last();
        assert forall|k: int| 0 <= k < t.len() implies (#[trigger] t[k]).4 == SCALE by {
            assert(t[k] == ms[k]);
        }
        lemma_sum_of_equal(t);
        assert(ms.len() * SCALE == (ms.len() - 1) * SCALE + SCALE) by (nonlinear_arith);
    }
}

/// The mean similarity of matches at most 1.0 is at most 1.0.
pub proof fn lemma_mean_in_range(ms: Seq<MatchView>)
    requires
        forall|k: int| 0 <= k < ms.len() ==> (#[trigger] ms[k]).4 <= SCALE,
    ensures
        mean_similarity(ms) matches Some(m) ==> 0 <= m <= SCALE,
{
    if ms.len() > 0 {
        lemma_sum_bounded(ms);
        let s = similarity_sum(ms);
        let n = ms.len() as int;
        lemma_div_round_bound(s, n, SCALE as int);
    }
}

proof fn lemma_sum_bounded(ms: Seq<MatchView>)
    requires
        forall|k: int| 0 <= k < ms.len() ==> (#[trigger] ms[k]).4 <= SCALE,
    ensures
        0 <= similarity_sum(ms) <= ms.len() * SCALE,
    decreases ms.len(),
{
    if ms.len() > 0 {
        let t = ms.drop_last();
        assert forall|k: int| 0 <= k < t.len() implies (#[trigger] t[k]).4 <= SCALE by {
            assert(t[k] == ms[k]);
        }
        lemma_sum_bounded(t);
        assert(ms.len() * SCALE == (ms.len() - 1) * SCALE + SCALE) by (nonlinear_arith);
    }
}

/// Block similarity does not depend on which side is which.
pub proof fn lemma_block_similarity_symmetric(l: Seq<BasicBlock>, i: int, r: Seq<BasicBlock>, j: int)
    ensures
        block_similarity(l, i, r, j) == block_similarity(r, j, l, i),
{
    lemma_bag_similarity_range(instruction_views(l[i].instructions@), instruction_views(r[j].instructions@));
    lemma_bag_similarity_range(stream(l, l[i].in_refs@), stream(r, r[j].in_refs@));
    lemma_bag_similarity_range(stream(l, l[i].out_refs@), stream(r, r[j].out_refs@));
}

/// Graph similarity does not depend on which side is which, for graphs of at
/// most one block each.
pub proof fn lemma_graph_similarity_symmetric(a: ControlFlowGraph, b: ControlFlowGraph)
    requires
        a.blocks@.len() <= 1,
        b.blocks@.len() <= 1,
    ensures
        graph_similarity(a, b) == graph_similarity(b, a),
{
    if a.hash != b.hash && a.blocks@.len() == 1 && b.blocks@.len() == 1 {
        lemma_block_similarity_symmetric(a.blocks@, 0, b.blocks@, 0);
        let sa = best_matches(a.blocks@, b.blocks@);
        let sb = best_matches(b.blocks@, a.blocks@);
        assert(best_match(a.blocks@, 0, b.blocks@, 0) == 0);
        assert(best_match(b.blocks@, 0, a.blocks@, 0) == 0);
        assert(sa[0] == best_match(a.blocks@, 0, b.blocks@, 1));
        assert(sb[0] == best_match(b.blocks@, 0, a.blocks@, 1));
        assert(sa[0] == sb[0]);
        reveal_with_fuel(sum_of_largest, 2);
        assert(first_max_index(sa) == 0);
        assert(first_max_index(sb) == 0);
        assert(sa.remove(0).len() == 0);
        assert(sb.remove(0).len() == 0);
    }
}

/// Graphs whose blocks hold the same instruction bytes, block for block,
/// carry the same fingerprint.
pub proof fn lemma_same_instructions_same_hash(a: ControlFlowGraph, b: ControlFlowGraph)
    requires
        a.wf(),
        b.wf(),
        a.blocks@.len() == b.blocks@.len(),
        forall|i: int| 0 <= i < a.blocks@.len() ==>
            instruction_bytes((#[trigger] a.blocks@[i]).instructions@) == instruction_bytes(b.blocks@[i].instructions@),
    ensures
        a.hash == b.hash,
{
    lemma_same_hash_bytes(a.blocks@, b.blocks@);
}

proof fn lemma_same_hash_bytes(a: Seq<BasicBlock>, b: Seq<BasicBlock>)
    requires
        a.len() == b.len(),
        forall|i: int| 0 <= i < a.len() ==> (#[trigger] a[i]).hash_valid() && b[i].hash_valid(),
        forall|i: int| 0 <= i < a.len() ==>
            instruction_bytes((#[trigger] a[i]).instructions@) == instruction_bytes(b[i].instructions@),
    ensures
        hash_bytes(a) == hash_bytes(b),
    decreases a.len(),
{
    if a.len() > 0 {
        let n = a.len() - 1;
        assert(a[n].hash_valid() && b[n].hash_valid());
        assert(instruction_bytes(a[n].instructions@) == instruction_bytes(b[n].instructions@));
        lemma_same_hash_bytes(a.drop_last(), b.drop_last());
    }
}

} // verus!
