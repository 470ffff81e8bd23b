use vstd::prelude::*;
use crate::compare_report::{CompareReport, ComputeTime};
use crate::disassembly::{built_from_sample, sample_builds, sample_error, Disassembly, SampleData};
use crate::error::Error;
use crate::laws::lemma_mean_in_range;
use crate::matching::{match_of, views_of, BinaryMatch, MatchView, MethodMatch};
use crate::control_flow_graph::{instruction_views, refs_below, BasicBlock, ControlFlowGraph};
use crate::similarity::{
    all_in_range, bag_similarity, best_match, best_matches, block_similarity, blocks_wf, count_common,
    div_round, first_max_index, graph_similarity, lemma_div_round_bound, round_div, lemma_graph_similarity_range, indices_below, lemma_bag_similarity_range, lemma_common_bounded,
    lemma_sum_of_largest_range, ratio, stream, stream_positions, sum_of_largest, SCALE,
};

verus! {

#[verifier::external_type_specification]
#[verifier::external_body]
pub struct ExInstant(std::time::Instant);

/// Relies on `std::time::Instant::now`: reads the monotonic clock.
#[verifier::external_body]
fn clock_now() -> std::time::Instant {
    std::time::Instant::now()
}

/// Relies on `std::time::Instant::elapsed`: the time since `start`.
#[verifier::external_body]
fn elapsed_since(start: &std::time::Instant) -> core::time::Duration {
    start.elapsed()
}

/// `Duration::as_secs`: the whole seconds.
pub assume_specification[ core::time::Duration::as_secs ](d: &core::time::Duration) -> u64;

/// `Duration::subsec_nanos`: the fractional part in nanoseconds, always
/// below one second.
pub assume_specification[ core::time::Duration::subsec_nanos ](d: &core::time::Duration) -> (r: u32)
    ensures
        r < 1_000_000_000,
;

/// How long ago `start` was.
fn time_since(start: &std::time::Instant) -> (r: ComputeTime)
    ensures
        r.nanos < 1_000_000_000,
{
    let elapsed = elapsed_since(start);
    ComputeTime { secs: elapsed.as_secs(), nanos: elapsed.subsec_nanos() }
}


/// Index of the sample graph that the matcher keeps for `reference` among the
/// first `n` of `samples`: the first one of highest similarity, among those
/// whose similarity reaches `threshold`; none when no one does.
pub open spec fn pick(reference: ControlFlowGraph, samples: Seq<ControlFlowGraph>, threshold: u64, n: int) -> Option<int>
    decreases n,
{
    if n <= 0 {
        None
    } else {
        let p = pick(reference, samples, threshold, n - 1);
        let s = graph_similarity(reference, samples[n - 1]);
        if s < threshold {
            p
        } else {
            match p {
                None => Some(n - 1),
                Some(i) => if s > graph_similarity(reference, samples[i]) {
                    Some(n - 1)
                } else {
                    p
                },
            }
        }
    }
}

/// The match the matcher reports for `reference` against `samples`.
pub open spec fn best_sample_match(reference: ControlFlowGraph, samples: Seq<ControlFlowGraph>, threshold: u64) -> Option<MatchView> {
    match pick(reference, samples, threshold, samples.len() as int) {
        None => None,
        Some(i) => Some(match_of(samples[i], reference, graph_similarity(reference, samples[i]) as u64)),
    }
}

/// The matches reported for the first `n` reference graphs, in their order.
pub open spec fn set_matches(samples: Seq<ControlFlowGraph>, references: Seq<ControlFlowGraph>, threshold: u64, n: int) -> Seq<MatchView>
    decreases n,
{
    if n <= 0 {
        Seq::empty()
    } else {
        let rest = set_matches(samples, references, threshold, n - 1);
        match best_sample_match(references[n - 1], samples, threshold) {
            None => rest,
            Some(m) => rest.push(m),
        }
    }
}

/// What `pick` keeps among the first `n` graphs: a graph that reaches the
/// threshold, none that reaches it scores higher, and none before it as high.
pub proof fn lemma_pick(reference: ControlFlowGraph, samples: Seq<ControlFlowGraph>, threshold: u64, n: int)
    requires
        0 <= n <= samples.len(),
    ensures
        pick(reference, samples, threshold, n) is None <==> forall|j: int| 0 <= j < n ==> #[trigger] graph_similarity(reference, samples[j]) < threshold,
        pick(reference, samples, threshold, n) matches Some(i) ==> {
            &&& 0 <= i < n
            &&& graph_similarity(reference, samples[i]) >= threshold
            &&& forall|j: int| 0 <= j < n && #[trigger] graph_similarity(reference, samples[j]) >= threshold
                ==> graph_similarity(reference, samples[j]) <= graph_similarity(reference, samples[i])
            &&& forall|j: int| 0 <= j < i && #[trigger] graph_similarity(reference, samples[j]) >= threshold
                ==> graph_similarity(reference, samples[j]) < graph_similarity(reference, samples[i])
        },
    decreases n,
{
    if n > 0 {
        lemma_pick(reference, samples, threshold, n - 1);
    }
}

/// Once a perfect score is kept, later graphs do not replace it.
proof fn lemma_pick_perfect(reference: ControlFlowGraph, samples: Seq<ControlFlowGraph>, threshold: u64, n: int, m: int, i: int)
    requires
        0 <= n <= m <= samples.len(),
        pick(reference, samples, threshold, n) == Some(i),
        graph_similarity(reference, samples[i]) == SCALE,
    ensures
        pick(reference, samples, threshold, m) == Some(i),
    decreases m - n,
{
    if m > n {
        lemma_pick_perfect(reference, samples, threshold, n, m - 1, i);
        lemma_graph_similarity_range(reference, samples[m - 1]);
    }
}

/// `r` is the report of comparing `sample` with each of `references`, in
/// their order, at `threshold`.
pub open spec fn reports(r: CompareReport, sample: Disassembly, references: Seq<Disassembly>, threshold: u64) -> bool {
    &&& r.sample_name@ == sample.name@
    &&& r.matches@.len() == references.len()
    &&& r.compute_time.nanos < 1_000_000_000
    &&& forall|i: int| 0 <= i < r.matches@.len() ==> {
        let m = #[trigger] r.matches@[i];
        &&& m.wf()
        &&& m.source@ == sample.name@
        &&& m.dest@ == references[i].name@
        &&& views_of(m.matches@) == set_matches(sample.graphs@, references[i].graphs@, threshold, references[i].graphs@.len() as int)
        &&& forall|k: int| 0 <= k < m.matches@.len() ==> threshold <= (#[trigger] m.matches@[k]).similarity <= SCALE
        &&& m.similarity matches Some(s) ==> s <= SCALE
    }
}

/// Compares a sample binary with reference binaries.
#[derive(Debug, Clone)]
pub struct Grapher {
    /// Whether progress is shown while working.
    pub display_progress: bool,
    /// Similarity, in units of `SCALE`, from which a match counts.
    pub threshold: u64,
}

impl Grapher {
    /// Creates a grapher that keeps matches whose similarity reaches
    /// `threshold` (in units of `SCALE`).
    pub fn new(threshold: u64, display_progress: bool) -> (r: Self)
        ensures
            r.threshold == threshold,
            r.display_progress == display_progress,
    {
        Grapher { display_progress, threshold }
    }

    /// Builds the disassembly of each binary, named by its label, in the
    /// list's order; the first binary that cannot be built aborts the batch
    /// with its error.
    pub fn generate_graphs(&self, sample_list: &Vec<SampleData>) -> (r: Result<Vec<Disassembly>, Error>)
        ensures
            r is Ok <==> forall|i: int| 0 <= i < sample_list@.len() ==> sample_builds(#[trigger] sample_list@[i]),
            r matches Ok(ds) ==> {
                &&& ds@.len() == sample_list@.len()
                &&& forall|i: int| 0 <= i < ds@.len() ==> built_from_sample(#[trigger] ds@[i], sample_list@[i])
            },
            r matches Err(e) ==> exists|i: int| {
                &&& 0 <= i < sample_list@.len()
                &&& !sample_builds(#[trigger] sample_list@[i])
                &&& forall|j: int| 0 <= j < i ==> sample_builds(#[trigger] sample_list@[j])
                &&& sample_error(sample_list@[i], e)
            },
    {
        let mut samples_graph: Vec<Disassembly> = Vec::new();
        let mut k: usize = 0;
        while k < sample_list.len()
            invariant
                k <= sample_list@.len(),
                samples_graph@.len() == k,
                forall|i: int| 0 <= i < k ==> sample_builds(#[trigger] sample_list@[i]),
                forall|i: int| 0 <= i < k ==> built_from_sample(#[trigger] samples_graph@[i], sample_list@[i]),
            decreases sample_list@.len() - k,
        {
            match Disassembly::from_sample(&sample_list[k]) {
                Ok(d) => samples_graph.push(d),
                Err(e) => {
                    return Err(e);
                },
            }
            k = k + 1;
        }
        Ok(samples_graph)
    }

    /// Builds every binary of `samples`, then compares the one at
    /// `sample_index` with all of them, itself included (its self-match is
    /// the baseline); the first binary that cannot be built aborts with its
    /// error.
    pub fn compare_samples(&self, samples: &Vec<SampleData>, sample_index: usize) -> (r: Result<CompareReport, Error>)
        requires
            sample_index < samples@.len(),
        ensures
            r is Ok <==> forall|i: int| 0 <= i < samples@.len() ==> sample_builds(#[trigger] samples@[i]),
            r matches Ok(rep) ==> exists|ds: Seq<Disassembly>| {
                &&& ds.len() == samples@.len()
                &&& forall|i: int| 0 <= i < ds.len() ==> built_from_sample(#[trigger] ds[i], samples@[i])
                &&& reports(rep, ds[sample_index as int], ds, self.threshold)
            },
            r matches Err(e) ==> exists|i: int| {
                &&& 0 <= i < samples@.len()
                &&& !sample_builds(#[trigger] samples@[i])
                &&& forall|j: int| 0 <= j < i ==> sample_builds(#[trigger] samples@[j])
                &&& sample_error(samples@[i], e)
            },
    {
        let ds = match self.generate_graphs(samples) {
            Ok(ds) => ds,
            Err(e) => {
                return Err(e);
            },
        };
        proof {
            assert forall|i: int| 0 <= i < ds@.len() implies (#[trigger] ds@[i]).wf() by {
                assert(built_from_sample(ds@[i], samples@[i]));
            }
        }
        let report = self.compare(&ds[sample_index], &ds);
        proof {
            assert(reports(report, ds@[sample_index as int], ds@, self.threshold));
        }
        Ok(report)
    }

    /// Compares the sample with each reference binary, in the references'
    /// order.
    pub fn compare(&self, sample_graph: &Disassembly, reference_graphs: &Vec<Disassembly>) -> (r: CompareReport)
        requires
            sample_graph.wf(),
            forall|i: int| 0 <= i < reference_graphs@.len() ==> (#[trigger] reference_graphs@[i]).wf(),
        ensures
            r.sample_name@ == sample_graph.name@,
            r.matches@.len() == reference_graphs@.len(),
            r.compute_time.nanos < 1_000_000_000,
            forall|i: int| 0 <= i < r.matches@.len() ==> {
                let m = #[trigger] r.matches@[i];
                &&& m.wf()
                &&& m.source@ == sample_graph.name@
                &&& m.dest@ == reference_graphs@[i].name@
                &&& views_of(m.matches@) == set_matches(sample_graph.graphs@, reference_graphs@[i].graphs@, self.threshold, reference_graphs@[i].graphs@.len() as int)
                &&& forall|k: int| 0 <= k < m.matches@.len() ==> self.threshold <= (#[trigger] m.matches@[k]).similarity <= SCALE
                &&& m.similarity matches Some(s) ==> s <= SCALE
            },
    {
        let compute_start = clock_now();
        let mut matches_list: Vec<BinaryMatch> = Vec::new();
        let mut k: usize = 0;
        while k < reference_graphs.len()
            invariant
                k <= reference_graphs@.len(),
                sample_graph.wf(),
                forall|i: int| 0 <= i < reference_graphs@.len() ==> (#[trigger] reference_graphs@[i]).wf(),
                matches_list@.len() == k,
                forall|i: int| 0 <= i < k ==> {
                    let m = #[trigger] matches_list@[i];
                    &&& m.wf()
                    &&& m.source@ == sample_graph.name@
                    &&& m.dest@ == reference_graphs@[i].name@
                    &&& views_of(m.matches@) == set_matches(sample_graph.graphs@, reference_graphs@[i].graphs@, self.threshold, reference_graphs@[i].graphs@.len() as int)
                    &&& forall|j: int| 0 <= j < m.matches@.len() ==> self.threshold <= (#[trigger] m.matches@[j]).similarity <= SCALE
                    &&& m.similarity matches Some(s) ==> s <= SCALE
                },
            decreases reference_graphs@.len() - k,
        {
            assert(reference_graphs@[k as int].wf());
            let binary_match = self.compare_graph_sets(sample_graph, &reference_graphs[k]);
            matches_list.push(binary_match);
            k = k + 1;
        }
        let compute_time = time_since(&compute_start);
        CompareReport::new(sample_graph.name.as_str(), matches_list, compute_time)
    }

    /// The best match of `reference_graph` among the graphs of
    /// `sample_graphs` (see `pick`); a perfect score ends the search.
    #[verifier::spinoff_prover]
    #[verifier::rlimit(50)]
    pub fn compare_against_graphs(&self, reference_graph: &ControlFlowGraph, sample_graphs: &Disassembly) -> (r: Option<MethodMatch>)
        requires
            reference_graph.wf(),
            sample_graphs.wf(),
        ensures
            r matches Some(m) ==> best_sample_match(*reference_graph, sample_graphs.graphs@, self.threshold) == Some(m@),
            r is None ==> best_sample_match(*reference_graph, sample_graphs.graphs@, self.threshold) is None,
            r matches Some(m) ==> m.similarity >= self.threshold && m.similarity <= SCALE,
    {
        let graphs = &sample_graphs.graphs;
        let ghost gs = graphs@;
        let mut current_top: Option<MethodMatch> = None;
        let mut current_index: usize = 0;
        let mut k: usize = 0;
        while k < graphs.len()
            invariant_except_break
                current_top is None <==> pick(*reference_graph, gs, self.threshold, k as int) is None,
                current_top matches Some(m) ==> {
                    &&& pick(*reference_graph, gs, self.threshold, k as int) == Some(current_index as int)
                    &&& current_index < k
                    &&& m.similarity < SCALE
                    &&& m@ == match_of(gs[current_index as int], *reference_graph, graph_similarity(*reference_graph, gs[current_index as int]) as u64)
                    &&& m.similarity == graph_similarity(*reference_graph, gs[current_index as int])
                },
            invariant
                k <= gs.len(),
                gs == graphs@,
                graphs == &sample_graphs.graphs,
                reference_graph.wf(),
                sample_graphs.wf(),
            ensures
                current_top is None <==> pick(*reference_graph, gs, self.threshold, gs.len() as int) is None,
                current_top matches Some(m) ==> {
                    &&& pick(*reference_graph, gs, self.threshold, gs.len() as int) == Some(current_index as int)
                    &&& m@ == match_of(gs[current_index as int], *reference_graph, graph_similarity(*reference_graph, gs[current_index as int]) as u64)
                    &&& m.similarity == graph_similarity(*reference_graph, gs[current_index as int])
                },
            decreases gs.len() - k,
        {
            assert(gs[k as int].wf());
            let similarity = Grapher::compare_graphs(reference_graph, &graphs[k]);
            if similarity < self.threshold {
                k = k + 1;
                continue;
            }
            let current_match = MethodMatch::new(&graphs[k], reference_graph, similarity);
            if similarity >= SCALE {
                current_top = Some(current_match);
                current_index = k;
                proof {
                    lemma_pick(*reference_graph, gs, self.threshold, k as int);
                    lemma_pick_perfect(*reference_graph, gs, self.threshold, k as int + 1, gs.len() as int, k as int);
                }
                break;
            }
            let replace = match &current_top {
                Some(top) => similarity > top.similarity,
                None => true,
            };
            if replace {
                current_top = Some(current_match);
                current_index = k;
            }
            k = k + 1;
        }
        proof {
            lemma_pick(*reference_graph, gs, self.threshold, gs.len() as int);
            if current_top is Some {
                lemma_graph_similarity_range(*reference_graph, gs[current_index as int]);
            }
        }
        current_top
    }

    /// Matches every graph of `reference_graphs` against the graphs of
    /// `sample_graphs`, in the reference's order.
    pub fn compare_graph_sets(&self, sample_graphs: &Disassembly, reference_graphs: &Disassembly) -> (r: BinaryMatch)
        requires
            sample_graphs.wf(),
            reference_graphs.wf(),
        ensures
            r.wf(),
            r.source@ == sample_graphs.name@,
            r.dest@ == reference_graphs.name@,
            views_of(r.matches@) == set_matches(sample_graphs.graphs@, reference_graphs.graphs@, self.threshold, reference_graphs.graphs@.len() as int),
            forall|k: int| 0 <= k < r.matches@.len() ==> self.threshold <= (#[trigger] r.matches@[k]).similarity <= SCALE,
            r.similarity matches Some(s) ==> s <= SCALE,
    {
        let refs = &reference_graphs.graphs;
        let mut matches: Vec<MethodMatch> = Vec::new();
        let mut k: usize = 0;
        while k < refs.len()
            invariant
                k <= refs@.len(),
                sample_graphs.wf(),
                reference_graphs.wf(),
                refs == &reference_graphs.graphs,
                views_of(matches@) == set_matches(sample_graphs.graphs@, refs@, self.threshold, k as int),
                forall|j: int| 0 <= j < matches@.len() ==> self.threshold <= (#[trigger] matches@[j]).similarity <= SCALE,
            decreases refs@.len() - k,
        {
            assert(refs@[k as int].wf());
            let found = self.compare_against_graphs(&refs[k], sample_graphs);
            match found {
                Some(m) => {
                    let ghost before = matches@;
                    matches.push(m);
                    assert(views_of(matches@) =~= views_of(before).push(m@));
                },
                None => {},
            }
            k = k + 1;
        }
        proof {
            let vs = views_of(matches@);
            assert forall|k: int| 0 <= k < vs.len() implies (#[trigger] vs[k]).4 <= SCALE by {
                assert(vs[k] == matches@[k]@);
            }
            lemma_mean_in_range(vs);
        }
        BinaryMatch::new(sample_graphs.name.as_str(), reference_graphs.name.as_str(), matches)
    }

    /// Similarity of the instructions of the listed blocks of two block lists,
    /// as a bag Jaccard index.
    pub fn compare_instructions(
        l_blocks: &Vec<BasicBlock>,
        l_indices: &Vec<usize>,
        r_blocks: &Vec<BasicBlock>,
        r_indices: &Vec<usize>,
    ) -> (r: u64)
        requires
            indices_below(l_indices@, l_blocks@.len() as int),
            indices_below(r_indices@, r_blocks@.len() as int),
        ensures
            r == bag_similarity(stream(l_blocks@, l_indices@), stream(r_blocks@, r_indices@)),
            r <= SCALE,
    {
        let ls = stream_positions(l_blocks, l_indices);
        let rs = stream_positions(r_blocks, r_indices);
        let ghost lv = stream(l_blocks@, l_indices@);
        let ghost rv = stream(r_blocks@, r_indices@);
        proof {
            lemma_common_bounded(lv, rv);
            lemma_bag_similarity_range(lv, rv);
        }
        // The longer stream is swept, the shorter one is the bag.
        let common: usize = if ls.len() > rs.len() {
            count_common(l_blocks, &ls, r_blocks, &rs)
        } else {
            count_common(r_blocks, &rs, l_blocks, &ls)
        };
        let union_size: u128 = ls.len() as u128 + rs.len() as u128 - common as u128;
        if union_size == 0 {
            return SCALE;
        }
        proof {
            assert((common as u128) * (SCALE as u128) <= 0xffff_ffff_ffff_ffff * 1_000_000_000) by (nonlinear_arith)
                requires common <= 0xffff_ffff_ffff_ffff;
            lemma_div_round_bound(common * SCALE, union_size as int, SCALE as int);
        }
        let r = round_div((common as u128) * (SCALE as u128), union_size);
        proof {
            assert(r == ratio(common as int, union_size as int));
        }
        r as u64
    }

    /// Similarity of block `l_index` of `l_blocks` to block `r_index` of
    /// `r_blocks`.
    pub fn compare_blocks(
        l_blocks: &Vec<BasicBlock>,
        l_index: usize,
        r_blocks: &Vec<BasicBlock>,
        r_index: usize,
    ) -> (r: u64)
        requires
            blocks_wf(l_blocks@),
            blocks_wf(r_blocks@),
            l_index < l_blocks@.len(),
            r_index < r_blocks@.len(),
        ensures
            r == block_similarity(l_blocks@, l_index as int, r_blocks@, r_index as int),
            r <= SCALE,
    {
        let lb = &l_blocks[l_index];
        let rb = &r_blocks[r_index];
        let local_sim: u64 = if lb.hash == rb.hash {
            SCALE
        } else {
            let li: Vec<usize> = vec![l_index];
            let ri: Vec<usize> = vec![r_index];
            proof {
                assert(li@.drop_last() =~= Seq::<usize>::empty());
                assert(ri@.drop_last() =~= Seq::<usize>::empty());
                assert(li@.len() == 1 && li@.last() == l_index);
                assert(stream(l_blocks@, li@.drop_last()) == Seq::<Seq<u8>>::empty());
                assert(Seq::<Seq<u8>>::empty() + instruction_views(l_blocks@[l_index as int].instructions@)
                    =~= instruction_views(l_blocks@[l_index as int].instructions@));
                assert(stream(l_blocks@, li@) =~= instruction_views(l_blocks@[l_index as int].instructions@));
                assert(ri@.len() == 1 && ri@.last() == r_index);
                assert(stream(r_blocks@, ri@.drop_last()) == Seq::<Seq<u8>>::empty());
                assert(Seq::<Seq<u8>>::empty() + instruction_views(r_blocks@[r_index as int].instructions@)
                    =~= instruction_views(r_blocks@[r_index as int].instructions@));
                assert(stream(r_blocks@, ri@) =~= instruction_views(r_blocks@[r_index as int].instructions@));
            }
            Grapher::compare_instructions(l_blocks, &li, r_blocks, &ri)
        };
        proof {
            assert(refs_below(l_blocks@[l_index as int], l_blocks@.len() as int));
            assert(refs_below(r_blocks@[r_index as int], r_blocks@.len() as int));
        }
        let prev_sim = Grapher::compare_instructions(l_blocks, &lb.in_refs, r_blocks, &rb.in_refs);
        let next_sim = Grapher::compare_instructions(l_blocks, &lb.out_refs, r_blocks, &rb.out_refs);
        proof {
            lemma_div_round_bound(local_sim * 2 + prev_sim + next_sim, 4, SCALE as int);
        }
        round_div((local_sim * 2 + prev_sim + next_sim) as u128, 4) as u64
    }

    /// Similarity of two control flow graphs (see `graph_similarity`).
    pub fn compare_graphs(source_graph: &ControlFlowGraph, target_graph: &ControlFlowGraph) -> (r: u64)
        requires
            source_graph.wf(),
            target_graph.wf(),
        ensures
            r == graph_similarity(*source_graph, *target_graph),
            r <= SCALE,
            source_graph.hash == target_graph.hash ==> r == SCALE,
    {
        // Graphs with the same fingerprint are taken as identical.
        if source_graph.hash == target_graph.hash {
            return SCALE;
        }
        let l_blocks = &source_graph.blocks;
        let r_blocks = &target_graph.blocks;
        let ghost best = best_matches(l_blocks@, r_blocks@);
        let mut top_sims: Vec<u64> = Vec::new();
        let mut l_index: usize = 0;
        while l_index < l_blocks.len()
            invariant
                l_index <= l_blocks@.len(),
                blocks_wf(l_blocks@),
                blocks_wf(r_blocks@),
                best == best_matches(l_blocks@, r_blocks@),
                as_ints(top_sims@) == best.take(l_index as int),
                all_in_range(as_ints(top_sims@)),
            decreases l_blocks@.len() - l_index,
        {
            let mut current_sim: u64 = 0;
            let mut r_index: usize = 0;
            while r_index < r_blocks.len()
                invariant
                    r_index <= r_blocks@.len(),
                    l_index < l_blocks@.len(),
                    blocks_wf(l_blocks@),
                    blocks_wf(r_blocks@),
                    current_sim == best_match(l_blocks@, l_index as int, r_blocks@, r_index as int),
                    current_sim <= SCALE,
                decreases r_blocks@.len() - r_index,
            {
                let similarity = Grapher::compare_blocks(l_blocks, l_index, r_blocks, r_index);
                if similarity > current_sim {
                    current_sim = similarity;
                }
                r_index = r_index + 1;
            }
            let ghost prev = top_sims@;
            top_sims.push(current_sim);
            proof {
                assert(as_ints(top_sims@) =~= as_ints(prev).push(current_sim as int));
                assert(best.take(l_index as int + 1) =~= best.take(l_index as int).push(best[l_index as int]));
            }
            l_index = l_index + 1;
        }
        proof {
            assert(best.take(l_index as int) =~= best);
        }
        let k: usize = if l_blocks.len() < r_blocks.len() { l_blocks.len() } else { r_blocks.len() };
        if k == 0 {
            return 0;
        }
        // Sum of the k largest block similarities.
        let mut sum: u128 = 0;
        let mut t: usize = 0;
        while t < k
            invariant
                t <= k,
                k <= best.len(),
                top_sims@.len() == best.len() - t,
                all_in_range(as_ints(top_sims@)),
                sum + sum_of_largest(as_ints(top_sims@), (k - t) as nat) == sum_of_largest(best, k as nat),
                sum <= t * SCALE,
            decreases k - t,
        {
            let m = first_max_position(&top_sims);
            let ghost before = as_ints(top_sims@);
            let v = top_sims.remove(m);
            proof {
                assert(as_ints(top_sims@) =~= before.remove(m as int));
                assert(before[m as int] <= SCALE);
                assert((t + 1) * SCALE == t * SCALE + SCALE) by (nonlinear_arith);
            }
            sum = sum + v as u128;
            t = t + 1;
        }
        proof {
            lemma_sum_of_largest_range(best, k as nat);
            assert(k * SCALE <= 0xffff_ffff_ffff_ffff * 1_000_000_000) by (nonlinear_arith)
                requires k <= 0xffff_ffff_ffff_ffff;
            lemma_div_round_bound(sum as int, k as int, SCALE as int);
        }
        round_div(sum, k as u128) as u64
    }
}

/// Values widened to integers.
pub open spec fn as_ints(v: Seq<u64>) -> Seq<int> {
    v.map_values(|x: u64| x as int)
}

/// Position of the first largest value.
fn first_max_position(v: &Vec<u64>) -> (m: usize)
    requires
        v@.len() > 0,
    ensures
        m == first_max_index(as_ints(v@)),
        m < v@.len(),
{
    let mut best: usize = 0;
    let mut j: usize = 1;
    proof {
        assert(as_ints(v@).take(1).len() == 1);
    }
    while j < v.len()
        invariant
            1 <= j <= v@.len(),
            best < j,
            best == first_max_index(as_ints(v@).take(j as int)),
        decreases v@.len() - j,
    {
        proof {
            assert(as_ints(v@).take(j as int + 1).drop_last() =~= as_ints(v@).take(j as int));
        }
        if v[j] > v[best] {
            best = j;
        }
        j = j + 1;
    }
    proof {
        assert(as_ints(v@).take(j as int) =~= as_ints(v@));
    }
    best
}

} // verus!
