use vstd::prelude::*;
use crate::control_flow_graph::ControlFlowGraph;
use crate::similarity::{div_round, lemma_div_round_bound, round_div, SCALE};

verus! {

/// Match of a sample function with a reference function.
#[derive(Debug, Clone)]
pub struct MethodMatch {
    /// Name of the sample function.
    pub old_name: String,
    /// Name of the reference function it was matched with.
    pub resolved_name: String,
    /// Offset of the sample function.
    pub malware_offset: u64,
    /// Offset of the reference function.
    pub clean_offset: u64,
    /// Similarity of the two, in units of `SCALE`.
    pub similarity: u64,
}

/// What a match says: sample name, reference name, sample offset, reference
/// offset, similarity.
pub type MatchView = (Seq<char>, Seq<char>, u64, u64, u64);

/// The match of sample graph `malware` with reference graph `clean`.
pub open spec fn match_of(malware: ControlFlowGraph, clean: ControlFlowGraph, similarity: u64) -> MatchView {
    (malware.name@, clean.name@, malware.offset, clean.offset, similarity)
}

impl View for MethodMatch {
    type V = MatchView;

    open spec fn view(&self) -> MatchView {
        (self.old_name@, self.resolved_name@, self.malware_offset, self.clean_offset, self.similarity)
    }
}

/// Sum of the similarities of the matches.
pub open spec fn similarity_sum(ms: Seq<MatchView>) -> int
    decreases ms.len(),
{
    if ms.len() == 0 {
        0
    } else {
        similarity_sum(ms.drop_last()) + ms.last().4
    }
}

/// Mean similarity of the matches, rounded to nearest (halves up); none
/// when there is no match.
pub open spec fn mean_similarity(ms: Seq<MatchView>) -> Option<int> {
    if ms.len() == 0 {
        None
    } else {
        Some(div_round(similarity_sum(ms), ms.len() as int))
    }
}

pub open spec fn views_of(ms: Seq<MethodMatch>) -> Seq<MatchView> {
    ms.map_values(|m: MethodMatch| m@)
}

impl MethodMatch {
    /// Match of sample graph `malware_graph` with reference graph `clean_graph`.
    pub fn new(malware_graph: &ControlFlowGraph, clean_graph: &ControlFlowGraph, similarity: u64) -> (r: Self)
        ensures
            r@ == match_of(*malware_graph, *clean_graph, similarity),
    {
        MethodMatch {
            old_name: malware_graph.name.clone(),
            resolved_name: clean_graph.name.clone(),
            malware_offset: malware_graph.offset,
            clean_offset: clean_graph.offset,
            similarity,
        }
    }

    /// Name of the sample function.
    pub fn old_name(&self) -> (r: &String)
        ensures
            r == &self.old_name,
    {
        &self.old_name
    }

    /// Name of the reference function.
    pub fn resolved_name(&self) -> (r: &String)
        ensures
            r == &self.resolved_name,
    {
        &self.resolved_name
    }

    /// Offset of the sample function.
    pub fn malware_offset(&self) -> (r: u64)
        ensures
            r == self.malware_offset,
    {
        self.malware_offset
    }

    /// Offset of the reference function.
    pub fn clean_offset(&self) -> (r: u64)
        ensures
            r == self.clean_offset,
    {
        self.clean_offset
    }

    /// Similarity of the two functions, in units of `SCALE`.
    pub fn similarity(&self) -> (r: u64)
        ensures
            r == self.similarity,
    {
        self.similarity
    }
}

/// Matches of the functions of two binaries.
#[derive(Debug, Clone)]
pub struct BinaryMatch {
    /// Mean similarity of the matches; none when there is no match.
    pub similarity: Option<u64>,
    /// Name of the sample binary.
    pub source: String,
    /// Name of the reference binary.
    pub dest: String,
    /// The matches.
    pub matches: Vec<MethodMatch>,
}

impl BinaryMatch {
    /// Similarity is the mean of the matches'.
    pub open spec fn wf(&self) -> bool {
        &&& self.similarity matches Some(s) ==> mean_similarity(views_of(self.matches@)) == Some(s as int)
        &&& self.similarity is None ==> mean_similarity(views_of(self.matches@)) is None
    }

    /// Mean similarity of the matches, in units of `SCALE`; none when there
    /// is no match.
    pub fn similarity(&self) -> (r: Option<u64>)
        ensures
            r == self.similarity,
    {
        self.similarity
    }

    /// Name of the sample binary.
    pub fn source(&self) -> (r: &String)
        ensures
            r == &self.source,
    {
        &self.source
    }

    /// Name of the reference binary.
    pub fn dest(&self) -> (r: &String)
        ensures
            r == &self.dest,
    {
        &self.dest
    }

    /// The matches.
    pub fn matches(&self) -> (r: &Vec<MethodMatch>)
        ensures
            r == &self.matches,
    {
        &self.matches
    }

    /// Gathers the matches of binary `source` with binary `dest`.
    pub fn new(source: &str, dest: &str, matches: Vec<MethodMatch>) -> (r: Self)
        requires
            forall|k: int| 0 <= k < matches@.len() ==> (#[trigger] matches@[k]).similarity <= SCALE,
        ensures
            r.wf(),
            r.source@ == source@,
            r.dest@ == dest@,
            r.matches@ == matches@,
    {
        let mut sum: u128 = 0;
        let mut i: usize = 0;
        while i < matches.len()
            invariant
                i <= matches@.len(),
                sum == similarity_sum(views_of(matches@).take(i as int)),
                sum <= i * SCALE,
                forall|k: int| 0 <= k < matches@.len() ==> (#[trigger] matches@[k]).similarity <= SCALE,
            decreases matches@.len() - i,
        {
            proof {
                assert(views_of(matches@).take(i as int + 1).drop_last() =~= views_of(matches@).take(i as int));
                assert((i + 1) * SCALE == i * SCALE + SCALE) by (nonlinear_arith);
            }
            sum = sum + matches[i].similarity as u128;
            i = i + 1;
        }
        proof {
            assert(views_of(matches@).take(i as int) =~= views_of(matches@));
        }
        let similarity = if matches.len() == 0 {
            None
        } else {
            proof {
                assert(i * SCALE <= 0xffff_ffff_ffff_ffff * 1_000_000_000) by (nonlinear_arith)
                    requires i <= 0xffff_ffff_ffff_ffff;
                lemma_div_round_bound(sum as int, i as int, SCALE as int);
            }
            let mean = round_div(sum, matches.len() as u128);
            Some(mean as u64)
        };
        BinaryMatch { similarity, source: source.to_string(), dest: dest.to_string(), matches }
    }
}

} // verus!
