use gographer::fingerprint::fingerprint;
use gographer::{
    BasicBlock, BinaryMatch, ControlFlowGraph, DecodeOutcome, DecodedFunction, Disassembly, Error,
    Grapher, Instruction, MethodMatch, SampleData, SCALE,
};

fn ins(bytes: &[u8]) -> Instruction {
    Instruction { bytes: bytes.to_vec() }
}

fn function(offset: u64, blocks: Vec<(u64, Vec<&[u8]>)>, edges: Vec<(u64, Vec<u64>)>) -> DecodedFunction {
    DecodedFunction {
        offset,
        blocks: blocks
            .into_iter()
            .map(|(o, is)| (o, is.into_iter().map(ins).collect()))
            .collect(),
        edges,
    }
}

fn disassembly(name: &str, functions: Vec<DecodedFunction>, symbols: Vec<(u64, Option<String>)>) -> Disassembly {
    Disassembly::from_functions(name, name, &symbols, &functions).expect("valid disassembly")
}

const A: &[u8] = &[0x48, 0x89, 0xe5];
const B: &[u8] = &[0x90];
const C: &[u8] = &[0xc3];
const X: &[u8] = &[0x31, 0xc0];

/// Blocks `[first, second]` and `[C]`, edge 0 -> 1.
fn two_block_function(offset: u64, first: &'static [u8], second: &'static [u8]) -> DecodedFunction {
    function(offset, vec![(0x10, vec![first, second]), (0x20, vec![C])], vec![(0x10, vec![0x20])])
}

fn graph(f: &DecodedFunction, name: &str) -> ControlFlowGraph {
    disassembly(name, vec![f.clone()], vec![(f.offset, Some(name.to_string()))]).graphs()[0].clone()
}

#[test]
fn identical_binaries_match_perfectly() {
    let sample = disassembly("sample", vec![two_block_function(0x1000, A, B)], vec![]);
    let reference = disassembly("reference", vec![two_block_function(0x1000, A, B)], vec![]);
    let report = Grapher::new(0, false).compare(&sample, &vec![reference]);
    assert_eq!(report.matches().len(), 1);
    let binary = &report.matches()[0];
    assert_eq!(binary.matches.len(), 1);
    assert_eq!(binary.matches[0].similarity(), SCALE);
    assert_eq!(binary.similarity, Some(SCALE));
    assert_eq!(binary.source, "sample");
    assert_eq!(binary.dest, "reference");
}

#[test]
fn one_differing_instruction_scores_by_the_formula() {
    let reference = graph(&two_block_function(0x1000, A, B), "F");
    let sample = graph(&two_block_function(0x2000, A, X), "F2");
    let l = reference.blocks();
    let r = sample.blocks();
    // {A,B} against {A,X}: one common instruction out of three.
    assert_eq!(Grapher::compare_instructions(l, &vec![0], r, &vec![0]), 333_333_333);
    // (2 * 1/3 + 1 + 1) / 4, rounded to nearest.
    assert_eq!(Grapher::compare_blocks(l, 0, r, 0), 666_666_667);
    assert_eq!(Grapher::compare_blocks(l, 0, r, 1), 0);
    assert_eq!(Grapher::compare_blocks(l, 1, r, 0), 0);
    // Same fingerprint locally: (2 * 1 + 1/3 + 1) / 4.
    assert_eq!(Grapher::compare_blocks(l, 1, r, 1), 833_333_333);
    assert_eq!(Grapher::compare_graphs(&reference, &sample), 750_000_000);
}

#[test]
fn threshold_above_every_score_leaves_no_match() {
    let sample = disassembly("sample", vec![two_block_function(0x2000, A, X)], vec![]);
    let reference = disassembly("reference", vec![two_block_function(0x1000, A, B)], vec![]);
    let report = Grapher::new(900_000_000, false).compare(&sample, &vec![reference]);
    assert_eq!(report.matches().len(), 1);
    assert!(report.matches()[0].matches.is_empty());
    assert_eq!(report.matches()[0].similarity, None);
}

#[test]
fn equal_fingerprints_score_one() {
    let a = graph(&two_block_function(0x1000, A, X), "a");
    let b = graph(&two_block_function(0x5000, A, X), "b");
    assert_eq!(a.hash(), b.hash());
    assert_eq!(Grapher::compare_graphs(&a, &b), SCALE);
    assert_eq!(Grapher::compare_graphs(&a, &a), SCALE);
}

#[test]
fn filter_symbol_keeps_matching_names_in_order() {
    let functions = vec![
        function(0x100, vec![(0x100, vec![A])], vec![]),
        function(0x200, vec![(0x200, vec![B])], vec![]),
        function(0x300, vec![(0x300, vec![C])], vec![]),
    ];
    let symbols = vec![
        (0x100, Some("main.a".to_string())),
        (0x200, Some("runtime.b".to_string())),
        (0x300, Some("main.c".to_string())),
    ];
    let d = disassembly("bin", functions, symbols);
    let kept = d.filter_symbol("^main\\.").expect("valid pattern");
    let names: Vec<&str> = kept.graphs().iter().map(|g| g.name().as_str()).collect();
    assert_eq!(names, vec!["main.a", "main.c"]);
    assert_eq!(kept.name(), "bin");
}

#[test]
fn filter_symbol_rejects_invalid_pattern() {
    let d = disassembly("bin", vec![], vec![]);
    match d.filter_symbol("main(") {
        Err(Error::InvalidSymbolPattern { pattern }) => assert_eq!(pattern, "main("),
        other => panic!("unexpected {:?}", other),
    }
}

fn sample(label: &str, decoded: DecodeOutcome) -> SampleData {
    SampleData { label: label.to_string(), path: format!("/bin/{label}"), symbols: vec![], decoded }
}

#[test]
fn unsupported_binary_aborts_the_batch() {
    let grapher = Grapher::new(0, false);
    let good = DecodeOutcome::Functions(vec![two_block_function(0x1000, A, B)]);
    for list in [
        vec![sample("bad", DecodeOutcome::UnsupportedFormat), sample("good", good.clone())],
        vec![sample("good", good.clone()), sample("bad", DecodeOutcome::UnsupportedFormat)],
    ] {
        match grapher.generate_graphs(&list) {
            Err(Error::UnsupportedBinaryFormat { sample }) => assert_eq!(sample, "/bin/bad"),
            other => panic!("unexpected {:?}", other),
        }
    }
}

#[test]
fn generate_graphs_names_each_disassembly_by_its_label() {
    let grapher = Grapher::new(0, false);
    let list = vec![
        sample("go1.20", DecodeOutcome::Functions(vec![two_block_function(0x1000, A, B)])),
        sample("go1.21", DecodeOutcome::Functions(vec![])),
    ];
    let ds = grapher.generate_graphs(&list).expect("all build");
    assert_eq!(ds.len(), 2);
    assert_eq!(ds[0].name(), "go1.20");
    assert_eq!(ds[0].path(), "/bin/go1.20");
    assert_eq!(ds[0].graphs().len(), 1);
    assert_eq!(ds[1].name(), "go1.21");
}

#[test]
fn decoder_failure_is_malformed_binary() {
    let grapher = Grapher::new(0, false);
    match grapher.generate_graphs(&vec![sample("odd", DecodeOutcome::Failed)]) {
        Err(Error::MalformedBinary { sample }) => assert_eq!(sample, "/bin/odd"),
        other => panic!("unexpected {:?}", other),
    }
}

#[test]
fn dangling_edge_is_malformed_binary() {
    let f = function(0x10, vec![(0x10, vec![A])], vec![(0x10, vec![0x99])]);
    match Disassembly::from_functions("x", "/x", &vec![], &vec![f]) {
        Err(Error::MalformedBinary { sample }) => assert_eq!(sample, "/x"),
        other => panic!("unexpected {:?}", other),
    }
}

#[test]
fn unreadable_symbol_is_malformed_binary() {
    let f = function(0x10, vec![(0x10, vec![A])], vec![]);
    let symbols = vec![(0x10, Some("early".to_string())), (0x10, None)];
    assert!(Disassembly::from_functions("x", "/x", &symbols, &vec![f]).is_err());
}

#[test]
fn last_symbol_at_an_address_names_the_function() {
    let f = function(0x10, vec![(0x10, vec![A])], vec![]);
    let symbols = vec![(0x10, None), (0x20, Some("other".to_string())), (0x10, Some("late".to_string()))];
    let d = Disassembly::from_functions("x", "/x", &symbols, &vec![f]).expect("builds");
    assert_eq!(d.graphs()[0].name(), "late");
    let g = function(0x30, vec![(0x30, vec![A])], vec![]);
    let d = Disassembly::from_functions("x", "/x", &symbols, &vec![g]).expect("builds");
    assert_eq!(d.graphs()[0].name(), "");
}

#[test]
fn graphs_and_blocks_come_out_sorted_with_edges_resolved() {
    let f = function(
        0x300,
        vec![(0x330, vec![C]), (0x300, vec![A]), (0x310, vec![B])],
        vec![(0x300, vec![0x310, 0x330]), (0x310, vec![0x330])],
    );
    let g = function(0x100, vec![(0x100, vec![A])], vec![]);
    let d = disassembly("bin", vec![f, g], vec![]);
    let offsets: Vec<u64> = d.graphs().iter().map(|g| g.offset()).collect();
    assert_eq!(offsets, vec![0x100, 0x300]);
    let blocks = d.graphs()[1].blocks();
    let block_offsets: Vec<u64> = blocks.iter().map(|b| b.offset()).collect();
    assert_eq!(block_offsets, vec![0x300, 0x310, 0x330]);
    assert_eq!(blocks[0].out_refs(), &vec![1, 2]);
    assert_eq!(blocks[1].in_refs(), &vec![0]);
    assert_eq!(blocks[1].out_refs(), &vec![2]);
    assert_eq!(blocks[2].in_refs(), &vec![0, 1]);
}

#[test]
fn duplicates_count_in_instruction_similarity() {
    let l = vec![BasicBlock::new(0, &vec![ins(A), ins(A), ins(B)])];
    let r = vec![BasicBlock::new(0, &vec![ins(A), ins(B), ins(B)])];
    // Common {A, B}; union {A, A, B, B}.
    assert_eq!(Grapher::compare_instructions(&l, &vec![0], &r, &vec![0]), SCALE / 2);
    assert_eq!(Grapher::compare_instructions(&r, &vec![0], &l, &vec![0]), SCALE / 2);
}

#[test]
fn empty_streams_are_perfectly_similar() {
    let l = vec![BasicBlock::new(0, &vec![ins(A)])];
    assert_eq!(Grapher::compare_instructions(&l, &vec![], &l, &vec![]), SCALE);
    let one = vec![BasicBlock::new(0, &vec![ins(A)])];
    assert_eq!(Grapher::compare_instructions(&one, &vec![0], &l, &vec![]), 0);
}

#[test]
fn similarity_is_symmetric_for_single_blocks() {
    let a = graph(&function(0, vec![(0, vec![A, B, C])], vec![]), "a");
    let b = graph(&function(0, vec![(0, vec![A, X])], vec![]), "b");
    assert_eq!(Grapher::compare_graphs(&a, &b), Grapher::compare_graphs(&b, &a));
    let s = Grapher::compare_graphs(&a, &b);
    assert!(s <= SCALE);
}

#[test]
fn self_comparison_is_perfect() {
    let d = disassembly(
        "bin",
        vec![two_block_function(0x1000, A, B), two_block_function(0x2000, A, X), function(0x3000, vec![(0x3000, vec![C])], vec![])],
        vec![],
    );
    let report = Grapher::new(SCALE, false).compare(&d, &vec![d.clone()]);
    let binary = &report.matches()[0];
    assert_eq!(binary.matches.len(), 3);
    assert!(binary.matches.iter().all(|m| m.similarity() == SCALE));
    assert_eq!(binary.similarity, Some(SCALE));
    assert_eq!(report.sample_name(), "bin");
    assert!(report.compute_time().nanos < 1_000_000_000);
}

#[test]
fn matcher_keeps_the_best_candidate_above_threshold() {
    let reference = disassembly("ref", vec![two_block_function(0x1000, A, B)], vec![(0x1000, Some("runtime.f".to_string()))]);
    let sample = disassembly(
        "sample",
        vec![function(0x10, vec![(0x10, vec![X])], vec![]), two_block_function(0x20, A, X)],
        vec![],
    );
    let grapher = Grapher::new(0, false);
    let m = grapher.compare_against_graphs(&reference.graphs()[0], &sample).expect("a match");
    assert_eq!(m.malware_offset(), 0x20);
    assert_eq!(m.clean_offset(), 0x1000);
    assert_eq!(m.resolved_name(), "runtime.f");
    assert_eq!(m.old_name(), "");
    assert_eq!(m.similarity(), 750_000_000);
}

#[test]
fn subset_sizes_follow_the_ratio() {
    let functions: Vec<DecodedFunction> = (0..10u64).map(|k| function(k * 0x10, vec![(k * 0x10, vec![A])], vec![])).collect();
    let d = disassembly("bin", functions, vec![]);
    assert_eq!(d.clone().to_subset(SCALE / 2).graphs().len(), 5);
    assert_eq!(d.clone().to_subset(SCALE / 3).graphs().len(), 3);
    assert_eq!(d.clone().to_subset(0).graphs().len(), 0);
    assert_eq!(d.clone().to_subset(5 * SCALE).graphs().len(), 10);
    let sub = d.clone().to_subset(SCALE / 2);
    let offsets: Vec<u64> = sub.graphs().iter().map(|g| g.offset()).collect();
    let mut sorted = offsets.clone();
    sorted.sort();
    sorted.dedup();
    assert_eq!(offsets, sorted);
    assert!(offsets.iter().all(|o| o % 0x10 == 0 && *o < 0xa0));
}

#[test]
fn binary_match_similarity_is_the_mean() {
    let g1 = graph(&function(1, vec![(1, vec![A])], vec![]), "f");
    let g2 = graph(&function(2, vec![(2, vec![B])], vec![]), "g");
    let ms = vec![MethodMatch::new(&g1, &g2, SCALE), MethodMatch::new(&g2, &g1, SCALE / 2)];
    let b = BinaryMatch::new("s", "d", ms);
    assert_eq!(b.similarity, Some(3 * SCALE / 4));
    assert_eq!(b.matches[0].old_name(), "f");
    assert_eq!(b.matches[0].resolved_name(), "g");
    assert_eq!(BinaryMatch::new("s", "d", vec![]).similarity, None);
}

#[test]
fn fingerprint_covers_the_concatenated_bytes() {
    let joined = BasicBlock::new(0, &vec![ins(&[1, 2, 3])]);
    let split = BasicBlock::new(0, &vec![ins(&[1]), ins(&[2, 3])]);
    let other = BasicBlock::new(0, &vec![ins(&[1, 2, 4])]);
    assert_eq!(joined.hash(), split.hash());
    assert_ne!(joined.hash(), other.hash());
    let mut hasher = chibihash::StreamingChibiHasher::new(0x1337);
    hasher.update(&[1, 2, 3]);
    assert_eq!(joined.hash(), hasher.finalize());
    assert_eq!(fingerprint(&vec![1, 2, 3]), joined.hash());
}

#[test]
fn graph_fingerprint_covers_block_fingerprints() {
    let b1 = BasicBlock::new(0, &vec![ins(A)]);
    let b2 = BasicBlock::new(4, &vec![ins(B)]);
    let mut data = Vec::new();
    data.extend_from_slice(&b1.hash().to_le_bytes());
    data.extend_from_slice(&b2.hash().to_le_bytes());
    let g = ControlFlowGraph::new("f", 0, vec![b1, b2]);
    assert_eq!(g.hash(), fingerprint(&data));
    assert_eq!(g.name(), "f");
    assert_eq!(g.blocks().len(), 2);
}

#[test]
fn bytes_of_no_known_format_are_unsupported() {
    let data = vec![0u8; 64];
    let sample = gographer::decode_sample("junk", "/tmp/junk", &data);
    assert_eq!(sample.label, "junk");
    assert_eq!(sample.path, "/tmp/junk");
    match Disassembly::new("junk", "/tmp/junk", &data) {
        Err(Error::UnsupportedBinaryFormat { sample }) => assert_eq!(sample, "/tmp/junk"),
        other => panic!("unexpected {:?}", other.map(|d| d.graphs().len())),
    }
}

#[test]
fn best_per_block_scores_depend_on_the_source_side() {
    let a = graph(&function(0, vec![(0, vec![A]), (4, vec![B])], vec![]), "a");
    let b = graph(&function(0, vec![(0, vec![A]), (4, vec![A])], vec![]), "b");
    // From a: A finds A (1.0), B finds nothing alike (0.5).
    assert_eq!(Grapher::compare_graphs(&a, &b), 3 * SCALE / 4);
    // From b: both blocks find A.
    assert_eq!(Grapher::compare_graphs(&b, &a), SCALE);
}

#[test]
fn compare_samples_includes_the_self_match() {
    let grapher = Grapher::new(0, false);
    let list = vec![
        sample("ref", DecodeOutcome::Functions(vec![two_block_function(0x1000, A, B)])),
        sample("mal", DecodeOutcome::Functions(vec![two_block_function(0x1000, A, B)])),
    ];
    let report = grapher.compare_samples(&list, 1).expect("all build");
    assert_eq!(report.sample_name(), "mal");
    assert_eq!(report.matches().len(), 2);
    assert_eq!(report.matches()[1].dest(), "mal");
    assert_eq!(report.matches()[1].similarity(), Some(SCALE));
    assert_eq!(report.matches()[0].source(), "mal");
    assert_eq!(report.matches()[0].matches().len(), 1);
}

#[test]
fn threshold_equal_to_the_score_keeps_the_match() {
    let sample = disassembly("sample", vec![two_block_function(0x2000, A, X)], vec![]);
    let reference = disassembly("reference", vec![two_block_function(0x1000, A, B)], vec![]);
    let report = Grapher::new(750_000_000, false).compare(&sample, &vec![reference]);
    assert_eq!(report.matches()[0].matches().len(), 1);
    assert_eq!(report.matches()[0].similarity(), Some(750_000_000));
}
