use vstd::prelude::*;
use crate::control_flow_graph::{instruction_views, offsets_sorted, refs_below, refs_dual, BasicBlock, ControlFlowGraph, Instruction};
use crate::decoder::decode_sample;
use crate::error::Error;
use crate::similarity::SCALE;

verus! {

/// Graphs are ascending by offset.
pub open spec fn graphs_sorted(graphs: Seq<ControlFlowGraph>) -> bool {
    forall|i: int, j: int| 0 <= i < j < graphs.len() ==> graphs[i].offset <= graphs[j].offset
}

/// Every graph is well formed.
pub open spec fn graphs_wf(graphs: Seq<ControlFlowGraph>) -> bool {
    forall|i: int| 0 <= i < graphs.len() ==> (#[trigger] graphs[i]).wf()
}

/// The control flow graphs of the functions of one binary.
#[derive(Debug, Clone)]
pub struct Disassembly {
    /// Label of the binary.
    pub name: String,
    /// Where the binary was read from.
    pub path: String,
    /// One graph per function, ascending by offset.
    pub graphs: Vec<ControlFlowGraph>,
}

/// A function as the decoder reports it.
#[derive(Debug, Clone)]
pub struct DecodedFunction {
    /// Entry offset.
    pub offset: u64,
    /// Each block's offset and instructions, in no particular order.
    pub blocks: Vec<(u64, Vec<Instruction>)>,
    /// Each block offset with the offsets of the blocks it flows into.
    pub edges: Vec<(u64, Vec<u64>)>,
}

/// What the decoder made of one binary.
#[derive(Debug, Clone)]
pub enum DecodeOutcome {
    /// The functions it found.
    Functions(Vec<DecodedFunction>),
    /// It does not know the binary's format.
    UnsupportedFormat,
    /// It failed otherwise.
    Failed,
}

/// One binary to disassemble: its label, path, symbol table and what the
/// decoder made of it.
#[derive(Debug, Clone)]
pub struct SampleData {
    pub label: String,
    pub path: String,
    pub symbols: Vec<(u64, Option<String>)>,
    pub decoded: DecodeOutcome,
}

/// The binary's disassembly can be built.
pub open spec fn sample_builds(s: SampleData) -> bool {
    s.decoded matches DecodeOutcome::Functions(fs) && forall|i: int| 0 <= i < fs@.len() ==> {
        &&& !unreadable_symbol(s.symbols@, (#[trigger] fs@[i]).offset)
        &&& edges_resolve(fs@[i])
    }
}

/// Some decoded block of the function starts at `offset`.
pub open spec fn has_block(f: DecodedFunction, offset: u64) -> bool {
    exists|k: int| 0 <= k < f.blocks@.len() && (#[trigger] f.blocks@[k]).0 == offset
}

/// The edge's source and destinations are blocks of the function.
pub open spec fn edge_resolves(f: DecodedFunction, edge: (u64, Vec<u64>)) -> bool {
    &&& has_block(f, edge.0)
    &&& forall|d: int| 0 <= d < edge.1@.len() ==> has_block(f, #[trigger] edge.1@[d])
}

/// Every edge of the function joins two of its blocks.
pub open spec fn edges_resolve(f: DecodedFunction) -> bool {
    forall|e: int| 0 <= e < f.edges@.len() ==> edge_resolves(f, #[trigger] f.edges@[e])
}

/// The symbol table holds a name that cannot be read at `address`: the last
/// entry for it has none.
pub open spec fn unreadable_symbol(symbols: Seq<(u64, Option<String>)>, address: u64) -> bool {
    exists|k: int| {
        &&& 0 <= k < symbols.len()
        &&& (#[trigger] symbols[k]).0 == address
        &&& symbols[k].1 is None
        &&& forall|j: int| k < j < symbols.len() ==> (#[trigger] symbols[j]).0 != address
    }
}

/// Name the symbol table gives `address`: that of its last entry, empty when
/// it has none (or that entry's name cannot be read).
pub open spec fn symbol_text(symbols: Seq<(u64, Option<String>)>, address: u64) -> Seq<char>
    decreases symbols.len(),
{
    if symbols.len() == 0 {
        Seq::empty()
    } else if symbols.last().0 == address {
        match symbols.last().1 {
            Some(name) => name@,
            None => Seq::empty(),
        }
    } else {
        symbol_text(symbols.drop_last(), address)
    }
}

/// `g` is the graph built for function `f`, named from `symbols`.
pub open spec fn built_from(g: ControlFlowGraph, f: DecodedFunction, symbols: Seq<(u64, Option<String>)>) -> bool {
    &&& g.offset == f.offset
    &&& g.name@ == symbol_text(symbols, f.offset)
    &&& g.blocks@.len() == f.blocks@.len()
    &&& exists|src: Seq<int>| blocks_from(g.blocks@, f, src)
    &&& edges_follow(g.blocks@, f)
    &&& block_keys_distinct(f) ==> successors_exact(g.blocks@, f)
}

/// Block `b` holds the decoded block `d`: its offset and instructions.
pub open spec fn block_from(b: BasicBlock, d: (u64, Vec<Instruction>)) -> bool {
    &&& b.offset == d.0
    &&& instruction_views(b.instructions@) == instruction_views(d.1@)
}

/// Block `i` holds decoded block `src[i]` of `f`, no decoded block twice.
pub open spec fn blocks_from(blocks: Seq<BasicBlock>, f: DecodedFunction, src: Seq<int>) -> bool {
    &&& src.len() == blocks.len()
    &&& forall|i: int| 0 <= i < blocks.len() ==> 0 <= #[trigger] src[i] < f.blocks@.len() && block_from(blocks[i], f.blocks@[src[i]])
    &&& forall|i: int, j: int| 0 <= i < j < src.len() ==> src[i] != src[j]
}

/// Graph `i` is built for function `src[i]`, no function twice.
pub open spec fn graphs_from(graphs: Seq<ControlFlowGraph>, fs: Seq<DecodedFunction>, symbols: Seq<(u64, Option<String>)>, src: Seq<int>) -> bool {
    &&& src.len() == graphs.len()
    &&& forall|i: int| 0 <= i < graphs.len() ==> 0 <= #[trigger] src[i] < fs.len() && built_from(graphs[i], fs[src[i]], symbols)
    &&& forall|i: int, j: int| 0 <= i < j < src.len() ==> src[i] != src[j]
}

/// `d` is the disassembly named `name`, read from `path`, that the functions
/// `fs` and the symbol table build: one graph per function.
pub open spec fn built_disassembly(d: Disassembly, name: Seq<char>, path: Seq<char>, symbols: Seq<(u64, Option<String>)>, fs: Seq<DecodedFunction>) -> bool {
    &&& d.wf()
    &&& d.name@ == name
    &&& d.path@ == path
    &&& d.graphs@.len() == fs.len()
    &&& exists|src: Seq<int>| graphs_from(d.graphs@, fs, symbols, src)
}

/// No two functions share an entry offset, and no two blocks of a function
/// share an offset.
pub open spec fn decoded_keys_distinct(fs: Seq<DecodedFunction>) -> bool {
    &&& forall|i: int, j: int| 0 <= i < j < fs.len() ==> fs[i].offset != fs[j].offset
    &&& forall|k: int| 0 <= k < fs.len() ==> block_keys_distinct(#[trigger] fs[k])
}

/// No two blocks of the function share an offset.
pub open spec fn block_keys_distinct(f: DecodedFunction) -> bool {
    forall|i: int, j: int| 0 <= i < j < f.blocks@.len() ==> f.blocks@[i].0 != f.blocks@[j].0
}

/// Graphs strictly ascending by offset, and so are the blocks of each.
pub open spec fn strictly_sorted(d: Disassembly) -> bool {
    &&& forall|i: int, j: int| 0 <= i < j < d.graphs@.len() ==> d.graphs@[i].offset < d.graphs@[j].offset
    &&& forall|k: int, i: int, j: int| 0 <= k < d.graphs@.len() && 0 <= i < j < d.graphs@[k].blocks@.len()
        ==> (#[trigger] d.graphs@[k].blocks@[i]).offset < (#[trigger] d.graphs@[k].blocks@[j]).offset
}

/// Distinct decoded offsets give strictly ascending graphs and blocks.
pub proof fn lemma_strictly_sorted(d: Disassembly, name: Seq<char>, path: Seq<char>, symbols: Seq<(u64, Option<String>)>, fs: Seq<DecodedFunction>)
    requires
        built_disassembly(d, name, path, symbols, fs),
        decoded_keys_distinct(fs),
    ensures
        strictly_sorted(d),
{
    let gs = d.graphs@;
    let src = choose|src: Seq<int>| graphs_from(gs, fs, symbols, src);
    assert forall|i: int, j: int| 0 <= i < j < gs.len() implies gs[i].offset < gs[j].offset by {
        assert(built_from(gs[i], fs[src[i]], symbols));
        assert(built_from(gs[j], fs[src[j]], symbols));
        assert(src[i] != src[j]);
        if src[i] < src[j] {
            assert(fs[src[i]].offset != fs[src[j]].offset);
        } else {
            assert(fs[src[j]].offset != fs[src[i]].offset);
        }
    }
    assert forall|k: int, i: int, j: int| 0 <= k < gs.len() && 0 <= i < j < gs[k].blocks@.len()
        implies (#[trigger] gs[k].blocks@[i]).offset < (#[trigger] gs[k].blocks@[j]).offset by {
        let g = gs[k];
        let f = fs[src[k]];
        assert(built_from(g, f, symbols));
        assert(block_keys_distinct(f));
        let bs = choose|b: Seq<int>| blocks_from(g.blocks@, f, b);
        assert(block_from(g.blocks@[i], f.blocks@[bs[i]]));
        assert(block_from(g.blocks@[j], f.blocks@[bs[j]]));
        assert(bs[i] != bs[j]);
        if bs[i] < bs[j] {
            assert(f.blocks@[bs[i]].0 != f.blocks@[bs[j]].0);
        } else {
            assert(f.blocks@[bs[j]].0 != f.blocks@[bs[i]].0);
        }
        assert(g.wf());
    }
}

/// `d` is what the sample builds.
pub open spec fn built_from_sample(d: Disassembly, s: SampleData) -> bool {
    s.decoded matches DecodeOutcome::Functions(fs) && built_disassembly(d, s.label@, s.path@, s.symbols@, fs@)
}

/// The error a sample that cannot be built gives.
pub open spec fn sample_error(s: SampleData, e: Error) -> bool {
    if s.decoded is UnsupportedFormat {
        e matches Error::UnsupportedBinaryFormat { sample: p } && p@ == s.path@
    } else {
        e matches Error::MalformedBinary { sample: p } && p@ == s.path@
    }
}

/// Index of the first block whose offset is above `offset`.
fn block_insert_position(blocks: &Vec<BasicBlock>, offset: u64) -> (p: usize)
    requires
        offsets_sorted(blocks@),
    ensures
        p <= blocks@.len(),
        forall|k: int| 0 <= k < p ==> (#[trigger] blocks@[k]).offset <= offset,
        forall|k: int| p <= k < blocks@.len() ==> (#[trigger] blocks@[k]).offset > offset,
{
    let mut p: usize = 0;
    while p < blocks.len() && blocks[p].offset <= offset
        invariant
            p <= blocks@.len(),
            offsets_sorted(blocks@),
            forall|k: int| 0 <= k < p ==> (#[trigger] blocks@[k]).offset <= offset,
        decreases blocks@.len() - p,
    {
        p = p + 1;
    }
    p
}

/// Index of a block that starts at `offset`, if any, by binary search.
fn find_block(blocks: &Vec<BasicBlock>, offset: u64) -> (r: Option<usize>)
    requires
        offsets_sorted(blocks@),
    ensures
        r matches Some(i) ==> i < blocks@.len() && blocks@[i as int].offset == offset,
        r is None ==> forall|k: int| 0 <= k < blocks@.len() ==> (#[trigger] blocks@[k]).offset != offset,
{
    let mut lo: usize = 0;
    let mut hi: usize = blocks.len();
    while lo < hi
        invariant
            lo <= hi <= blocks@.len(),
            offsets_sorted(blocks@),
            forall|k: int| 0 <= k < lo ==> (#[trigger] blocks@[k]).offset < offset,
            forall|k: int| hi <= k < blocks@.len() ==> (#[trigger] blocks@[k]).offset >= offset,
        decreases hi - lo,
    {
        let mid = lo + (hi - lo) / 2;
        if blocks[mid].offset < offset {
            lo = mid + 1;
        } else {
            hi = mid;
        }
    }
    if lo < blocks.len() && blocks[lo].offset == offset {
        Some(lo)
    } else {
        proof {
            assert forall|k: int| 0 <= k < blocks@.len() implies (#[trigger] blocks@[k]).offset != offset by {
                if k > lo {
                    assert(blocks@[lo as int].offset <= blocks@[k].offset);
                }
            }
        }
        None
    }
}

/// Entry `i` is the last one of the table at `address`.
pub open spec fn last_entry_at(symbols: Seq<(u64, Option<String>)>, address: u64, i: int) -> bool {
    &&& 0 <= i < symbols.len()
    &&& symbols[i].0 == address
    &&& forall|j: int| i < j < symbols.len() ==> (#[trigger] symbols[j]).0 != address
}

/// The index maps each address of the table to its last entry.
pub open spec fn indexes_symbols(index: Map<u64, usize>, symbols: Seq<(u64, Option<String>)>) -> bool {
    &&& forall|a: u64| #[trigger] index.contains_key(a) ==> last_entry_at(symbols, a, index[a] as int)
    &&& forall|j: int| 0 <= j < symbols.len() ==> index.contains_key(#[trigger] symbols[j].0)
}

proof fn lemma_symbol_text_last(symbols: Seq<(u64, Option<String>)>, address: u64, i: int)
    requires
        last_entry_at(symbols, address, i),
    ensures
        symbol_text(symbols, address) == match symbols[i].1 {
            Some(name) => name@,
            None => Seq::<char>::empty(),
        },
    decreases symbols.len(),
{
    if i != symbols.len() - 1 {
        let t = symbols.drop_last();
        assert(symbols.last().0 != address);
        assert forall|j: int| i < j < t.len() implies (#[trigger] t[j]).0 != address by {
            assert(t[j] == symbols[j]);
        }
        lemma_symbol_text_last(t, address, i);
    }
}

proof fn lemma_symbol_text_absent(symbols: Seq<(u64, Option<String>)>, address: u64)
    requires
        forall|j: int| 0 <= j < symbols.len() ==> (#[trigger] symbols[j]).0 != address,
    ensures
        symbol_text(symbols, address) == Seq::<char>::empty(),
    decreases symbols.len(),
{
    if symbols.len() > 0 {
        let t = symbols.drop_last();
        assert(symbols.last().0 != address);
        assert forall|j: int| 0 <= j < t.len() implies (#[trigger] t[j]).0 != address by {
            assert(t[j] == symbols[j]);
        }
        lemma_symbol_text_absent(t, address);
    }
}

/// Maps each address of the symbol table to its last entry.
fn index_symbols(symbols: &Vec<(u64, Option<String>)>) -> (r: std::collections::HashMap<u64, usize>)
    ensures
        indexes_symbols(r@, symbols@),
{
    broadcast use vstd::std_specs::hash::group_hash_axioms;
    let mut index: std::collections::HashMap<u64, usize> = std::collections::HashMap::new();
    let mut k: usize = 0;
    while k < symbols.len()
        invariant
            k <= symbols@.len(),
            indexes_symbols(index@, symbols@.take(k as int)),
        decreases symbols@.len() - k,
    {
        let ghost before = index@;
        let a = symbols[k].0;
        index.insert(a, k);
        proof {
            let t = symbols@.take(k as int + 1);
            let t0 = symbols@.take(k as int);
            assert forall|b: u64| #[trigger] index@.contains_key(b) implies last_entry_at(t, b, index@[b] as int) by {
                if b != a {
                    assert(before.contains_key(b));
                    assert(last_entry_at(t0, b, before[b] as int));
                    assert(t[before[b] as int] == t0[before[b] as int]);
                    assert forall|j: int| before[b] < j < t.len() implies (#[trigger] t[j]).0 != b by {
                        if j < k {
                            assert(t[j] == t0[j]);
                        }
                    }
                }
            }
            assert forall|j: int| 0 <= j < t.len() implies index@.contains_key(#[trigger] t[j].0) by {
                if j < k {
                    assert(t[j] == t0[j]);
                }
            }
        }
        k = k + 1;
    }
    proof {
        assert(symbols@.take(k as int) =~= symbols@);
    }
    index
}

/// Name of the symbol at `address`, the last entry for it winning; empty when
/// there is none; `None` when its name cannot be read.
fn symbol_name(symbols: &Vec<(u64, Option<String>)>, index: &std::collections::HashMap<u64, usize>, address: u64) -> (r: Option<String>)
    requires
        indexes_symbols(index@, symbols@),
    ensures
        r is None <==> unreadable_symbol(symbols@, address),
        r matches Some(n) ==> n@ == symbol_text(symbols@, address),
{
    broadcast use vstd::std_specs::hash::group_hash_axioms;
    match index.get(&address) {
        Some(i) => {
            let i: usize = *i;
            proof {
                assert(index@.contains_key(address));
                lemma_symbol_text_last(symbols@, address, i as int);
            }
            match &symbols[i].1 {
                Some(name) => {
                    let r = name.clone();
                    proof {
                        assert forall|j: int| 0 <= j < symbols@.len() && (#[trigger] symbols@[j]).0 == address && symbols@[j].1 is None
                            implies exists|m: int| j < m < symbols@.len() && (#[trigger] symbols@[m]).0 == address by {
                            assert(j != i);
                            assert(symbols@[i as int].0 == address);
                        }
                    }
                    Some(r)
                },
                None => None,
            }
        },
        None => {
            proof {
                assert forall|j: int| 0 <= j < symbols@.len() implies (#[trigger] symbols@[j]).0 != address by {
                    assert(index@.contains_key(symbols@[j].0));
                }
                lemma_symbol_text_absent(symbols@, address);
            }
            Some(String::new())
        },
    }
}

/// Whether a decoded block of the function starts at `offset`.
fn decoded_block_exists(f: &DecodedFunction, offset: u64) -> (r: bool)
    ensures
        r == has_block(*f, offset),
{
    let mut k: usize = 0;
    while k < f.blocks.len()
        invariant
            k <= f.blocks@.len(),
            forall|j: int| 0 <= j < k ==> (#[trigger] f.blocks@[j]).0 != offset,
        decreases f.blocks@.len() - k,
    {
        if f.blocks[k].0 == offset {
            return true;
        }
        k = k + 1;
    }
    false
}

/// Whether every edge of the function joins two of its blocks.
fn check_edges(f: &DecodedFunction) -> (r: bool)
    ensures
        r == edges_resolve(*f),
{
    let mut e: usize = 0;
    while e < f.edges.len()
        invariant
            e <= f.edges@.len(),
            forall|x: int| 0 <= x < e ==> edge_resolves(*f, #[trigger] f.edges@[x]),
        decreases f.edges@.len() - e,
    {
        if !decoded_block_exists(f, f.edges[e].0) {
            proof {
                assert(!edge_resolves(*f, f.edges@[e as int]));
            }
            return false;
        }
        let dsts = &f.edges[e].1;
        let mut d: usize = 0;
        while d < dsts.len()
            invariant
                d <= dsts@.len(),
                e < f.edges@.len(),
                dsts == &f.edges@[e as int].1,
                forall|x: int| 0 <= x < d ==> has_block(*f, #[trigger] dsts@[x]),
            decreases dsts@.len() - d,
        {
            if !decoded_block_exists(f, dsts[d]) {
                proof {
                    assert(!has_block(*f, dsts@[d as int]));
                    assert(dsts@[d as int] == f.edges@[e as int].1@[d as int]);
                    assert(!edge_resolves(*f, f.edges@[e as int]));
                }
                return false;
            }
            d = d + 1;
        }
        assert(edge_resolves(*f, f.edges@[e as int]));
        e = e + 1;
    }
    true
}

/// Blocks well formed for a graph of `n` blocks, fingerprints matching.
pub open spec fn blocks_ready(blocks: Seq<BasicBlock>, n: int) -> bool {
    &&& blocks.len() == n
    &&& offsets_sorted(blocks)
    &&& forall|i: int| 0 <= i < blocks.len() ==> (#[trigger] blocks[i]).hash_valid()
    &&& forall|i: int| 0 <= i < blocks.len() ==> refs_below(#[trigger] blocks[i], n)
    &&& refs_dual(blocks)
}

/// Some block starts at `offset`.
pub open spec fn offset_present(blocks: Seq<BasicBlock>, offset: u64) -> bool {
    exists|i: int| 0 <= i < blocks.len() && (#[trigger] blocks[i]).offset == offset
}

/// A block at offset `from` lists a block at offset `to` among its successors.
pub open spec fn edge_recorded(blocks: Seq<BasicBlock>, from: u64, to: u64) -> bool {
    exists|i: int, k: int| 0 <= i < blocks.len() && 0 <= k < blocks[i].out_refs@.len()
        && (#[trigger] blocks[i].out_refs@[k]) < blocks.len()
        && blocks[i].offset == from && blocks[blocks[i].out_refs@[k] as int].offset == to
}

/// The function's edge list holds an edge from offset `from` to offset `to`.
pub open spec fn edge_listed(f: DecodedFunction, from: u64, to: u64) -> bool {
    exists|x: int, d: int| 0 <= x < f.edges@.len() && 0 <= d < f.edges@[x].1@.len()
        && f.edges@[x].0 == from && (#[trigger] f.edges@[x].1@[d]) == to
}

/// Every edge of the list is recorded between the blocks at its offsets, and
/// every recorded successor comes from an edge of the list.
pub open spec fn edges_follow(blocks: Seq<BasicBlock>, f: DecodedFunction) -> bool {
    &&& forall|x: int, d: int| 0 <= x < f.edges@.len() && 0 <= d < f.edges@[x].1@.len()
        ==> edge_recorded(blocks, f.edges@[x].0, #[trigger] f.edges@[x].1@[d])
    &&& successors_listed(blocks, f)
}

/// Every recorded successor comes from an edge of the list.
pub open spec fn successors_listed(blocks: Seq<BasicBlock>, f: DecodedFunction) -> bool {
    forall|i: int, k: int| 0 <= i < blocks.len() && 0 <= k < blocks[i].out_refs@.len()
        ==> edge_listed(f, blocks[i].offset, blocks[(#[trigger] blocks[i].out_refs@[k]) as int].offset)
}

/// Offsets of the blocks.
pub open spec fn offsets_of(blocks: Seq<BasicBlock>) -> Seq<u64> {
    blocks.map_values(|b: BasicBlock| b.offset)
}

/// Index of the block at `offset` (the one, when offsets are distinct).
pub open spec fn index_of(offs: Seq<u64>, offset: u64) -> usize {
    (choose|k: int| 0 <= k < offs.len() && offs[k] == offset) as usize
}

/// Indices of the successors that the first `n` entries of the edge list
/// give the block at offset `from`, in list order.
pub open spec fn listed_successors(offs: Seq<u64>, f: DecodedFunction, from: u64, n: int) -> Seq<usize>
    decreases n,
{
    if n <= 0 {
        Seq::empty()
    } else {
        let rest = listed_successors(offs, f, from, n - 1);
        if f.edges@[n - 1].0 == from {
            rest + f.edges@[n - 1].1@.map_values(|o: u64| index_of(offs, o))
        } else {
            rest
        }
    }
}

/// Each block's successors are exactly, in order, the destinations that the
/// edge list gives its offset.
pub open spec fn successors_exact(blocks: Seq<BasicBlock>, f: DecodedFunction) -> bool {
    forall|i: int| 0 <= i < blocks.len() ==>
        (#[trigger] blocks[i]).out_refs@ == listed_successors(offsets_of(blocks), f, blocks[i].offset, f.edges@.len() as int)
}

/// Blocks built from distinct decoded offsets have distinct offsets.
proof fn lemma_blocks_distinct(blocks: Seq<BasicBlock>, f: DecodedFunction, bsrc: Seq<int>)
    requires
        blocks_from(blocks, f, bsrc),
        block_keys_distinct(f),
    ensures
        forall|i: int, j: int| 0 <= i < blocks.len() && 0 <= j < blocks.len() && i != j ==> blocks[i].offset != blocks[j].offset,
{
    assert forall|i: int, j: int| 0 <= i < blocks.len() && 0 <= j < blocks.len() && i != j implies blocks[i].offset != blocks[j].offset by {
        assert(block_from(blocks[i], f.blocks@[bsrc[i]]));
        assert(block_from(blocks[j], f.blocks@[bsrc[j]]));
        assert(bsrc[i] != bsrc[j]) by {
            if i < j {
                assert(bsrc[i] != bsrc[j]);
            } else {
                assert(bsrc[j] != bsrc[i]);
            }
        }
        if bsrc[i] < bsrc[j] {
            assert(f.blocks@[bsrc[i]].0 != f.blocks@[bsrc[j]].0);
        } else {
            assert(f.blocks@[bsrc[j]].0 != f.blocks@[bsrc[i]].0);
        }
    }
}

/// Pushing one successor keeps what was recorded.
proof fn lemma_edge_kept(old_blocks: Seq<BasicBlock>, new_blocks: Seq<BasicBlock>, src: int, dst: usize, from: u64, to: u64)
    requires
        old_blocks.len() == new_blocks.len(),
        0 <= src < old_blocks.len(),
        forall|i: int| 0 <= i < new_blocks.len() ==> (#[trigger] new_blocks[i]).offset == old_blocks[i].offset,
        forall|i: int| 0 <= i < new_blocks.len() && i != src ==> (#[trigger] new_blocks[i]).out_refs@ == old_blocks[i].out_refs@,
        new_blocks[src].out_refs@ == old_blocks[src].out_refs@.push(dst),
        edge_recorded(old_blocks, from, to),
    ensures
        edge_recorded(new_blocks, from, to),
{
    let (i, k) = choose|i: int, k: int| 0 <= i < old_blocks.len() && 0 <= k < old_blocks[i].out_refs@.len()
        && (#[trigger] old_blocks[i].out_refs@[k]) < old_blocks.len()
        && old_blocks[i].offset == from && old_blocks[old_blocks[i].out_refs@[k] as int].offset == to;
    assert(new_blocks[i].out_refs@[k] == old_blocks[i].out_refs@[k]);
    assert(new_blocks[new_blocks[i].out_refs@[k] as int].offset == to);
}

/// Records the edge from block `src` to block `dst`.
fn add_edge(blocks: &mut Vec<BasicBlock>, src: usize, dst: usize)
    requires
        src < old(blocks)@.len(),
        dst < old(blocks)@.len(),
        blocks_ready(old(blocks)@, old(blocks)@.len() as int),
    ensures
        blocks_ready(final(blocks)@, old(blocks)@.len() as int),
        forall|i: int| 0 <= i < final(blocks)@.len() ==> (#[trigger] final(blocks)@[i]).offset == old(blocks)@[i].offset
            && final(blocks)@[i].instructions == old(blocks)@[i].instructions,
        forall|i: int| 0 <= i < final(blocks)@.len() && i != src ==> (#[trigger] final(blocks)@[i]).out_refs@ == old(blocks)@[i].out_refs@,
        final(blocks)@[src as int].out_refs@ == old(blocks)@[src as int].out_refs@.push(dst),
{
    let len: usize = blocks.len();
    let ghost n = len as int;
    let mut from = blocks.remove(src);
    from.out_refs.push(dst);
    blocks.insert(src, from);
    let mut to = blocks.remove(dst);
    to.in_refs.push(src);
    blocks.insert(dst, to);
    proof {
        broadcast use vstd::seq_lib::group_to_multiset_ensures;
        let ob = old(blocks)@;
        assert forall|i: int| 0 <= i < n && i != src as int implies (#[trigger] blocks@[i]).out_refs@ == ob[i].out_refs@ by {}
        assert forall|j: int| 0 <= j < n && j != dst as int implies (#[trigger] blocks@[j]).in_refs@ == ob[j].in_refs@ by {}
        assert(blocks@[src as int].out_refs@ == ob[src as int].out_refs@.push(dst));
        assert(blocks@[dst as int].in_refs@ == ob[dst as int].in_refs@.push(src));
        assert forall|i: int, j: int| 0 <= i < n && 0 <= j < n implies
            (#[trigger] blocks@[i].out_refs@.to_multiset()).count(j as usize) == (#[trigger] blocks@[j].in_refs@.to_multiset()).count(i as usize) by {
            assert(ob[i].out_refs@.to_multiset().count(j as usize) == ob[j].in_refs@.to_multiset().count(i as usize));
            assert((i as usize == src) == (i == src as int));
            assert((j as usize == dst) == (j == dst as int));
            if i == src as int {
                assert(blocks@[i].out_refs@.to_multiset() =~= ob[i].out_refs@.to_multiset().insert(dst));
            }
            if j == dst as int {
                assert(blocks@[j].in_refs@.to_multiset() =~= ob[j].in_refs@.to_multiset().insert(src));
            }
        }
        assert(refs_below(blocks@[src as int], n) || src == dst);
        assert forall|i: int| 0 <= i < blocks@.len() implies refs_below(#[trigger] blocks@[i], n) by {
            if i != src as int && i != dst as int {
                assert(refs_below(old(blocks)@[i], n));
            } else {
                assert(refs_below(old(blocks)@[src as int], n));
                assert(refs_below(old(blocks)@[dst as int], n));
            }
        }
    }
}

/// Builds the graph of one decoded function; fails when an edge leaves it.
#[verifier::spinoff_prover]
fn build_graph(name: &str, f: &DecodedFunction) -> (r: Option<ControlFlowGraph>)
    ensures
        r is Some <==> edges_resolve(*f),
        r matches Some(g) ==> g.wf() && g.offset == f.offset && g.name@ == name@ && g.blocks@.len() == f.blocks@.len()
            && exists|src: Seq<int>| blocks_from(g.blocks@, *f, src),
        r matches Some(g) ==> edges_follow(g.blocks@, *f),
        r matches Some(g) ==> (block_keys_distinct(*f) ==> successors_exact(g.blocks@, *f)),
{
    if !check_edges(f) {
        return None;
    }
    let mut blocks: Vec<BasicBlock> = Vec::new();
    let ghost mut bsrc: Seq<int> = Seq::empty();
    let mut k: usize = 0;
    while k < f.blocks.len()
        invariant
            k <= f.blocks@.len(),
            blocks@.len() == k,
            offsets_sorted(blocks@),
            forall|i: int| 0 <= i < blocks@.len() ==> (#[trigger] blocks@[i]).hash_valid(),
            forall|i: int| 0 <= i < blocks@.len() ==> (#[trigger] blocks@[i]).in_refs@.len() == 0 && blocks@[i].out_refs@.len() == 0,
            blocks_from(blocks@, *f, bsrc),
            forall|i: int| 0 <= i < bsrc.len() ==> #[trigger] bsrc[i] < k,
            forall|q: int| 0 <= q < k ==> offset_present(blocks@, #[trigger] f.blocks@[q].0),
        decreases f.blocks@.len() - k,
    {
        let block = BasicBlock::new(f.blocks[k].0, &f.blocks[k].1);
        let p = block_insert_position(&blocks, block.offset);
        let ghost before = blocks@;
        let ghost bbefore = bsrc;
        blocks.insert(p, block);
        proof {
            bsrc = bsrc.insert(p as int, k as int);
            assert forall|q: int| 0 <= q < k + 1 implies offset_present(blocks@, #[trigger] f.blocks@[q].0) by {
                if q < k {
                    let i0 = choose|i: int| 0 <= i < before.len() && (#[trigger] before[i]).offset == f.blocks@[q].0;
                    if i0 < p {
                        assert(blocks@[i0] == before[i0]);
                    } else {
                        assert(blocks@[i0 + 1] == before[i0]);
                    }
                } else {
                    assert(blocks@[p as int].offset == f.blocks@[q].0);
                }
            }
            assert forall|i: int| 0 <= i < blocks@.len() implies 0 <= #[trigger] bsrc[i] < f.blocks@.len() && block_from(blocks@[i], f.blocks@[bsrc[i]]) by {
                if i < p {
                    assert(blocks@[i] == before[i] && bsrc[i] == bbefore[i]);
                } else if i > p {
                    assert(blocks@[i] == before[i - 1] && bsrc[i] == bbefore[i - 1]);
                }
            }
            assert forall|i: int, j: int| 0 <= i < j < bsrc.len() implies bsrc[i] != bsrc[j] by {
                if i < p && j > p {
                    assert(bsrc[i] == bbefore[i] && bsrc[j] == bbefore[j - 1]);
                } else if j < p {
                    assert(bsrc[i] == bbefore[i] && bsrc[j] == bbefore[j]);
                } else if i > p {
                    assert(bsrc[i] == bbefore[i - 1] && bsrc[j] == bbefore[j - 1]);
                } else if i == p {
                    assert(bsrc[j] == bbefore[j - 1]);
                } else {
                    assert(bsrc[i] == bbefore[i]);
                }
            }
        }
        k = k + 1;
    }
    let n = blocks.len();
    proof {
        assert forall|i: int| 0 <= i < blocks@.len() implies refs_below(#[trigger] blocks@[i], n as int) by {
            assert(blocks@[i].in_refs@.len() == 0 && blocks@[i].out_refs@.len() == 0);
        }
        assert forall|i: int, j: int| 0 <= i < blocks@.len() && 0 <= j < blocks@.len() implies
            (#[trigger] blocks@[i].out_refs@.to_multiset()).count(j as usize) == (#[trigger] blocks@[j].in_refs@.to_multiset()).count(i as usize) by {
            broadcast use vstd::seq_lib::group_to_multiset_ensures, vstd::multiset::group_multiset_axioms;
            assert(blocks@[i].out_refs@ =~= Seq::<usize>::empty());
            assert(blocks@[j].in_refs@ =~= Seq::<usize>::empty());
        }
    }
    proof {
        assert(f.blocks@.len() == k);
        assert forall|i: int, k2: int| 0 <= i < blocks@.len() && 0 <= k2 < blocks@[i].out_refs@.len()
            implies edge_listed(*f, blocks@[i].offset, blocks@[(#[trigger] blocks@[i].out_refs@[k2]) as int].offset) by {
            assert(blocks@[i].out_refs@.len() == 0);
        }
    }
    let ghost offs = offsets_of(blocks@);
    proof {
        if block_keys_distinct(*f) {
            lemma_blocks_distinct(blocks@, *f, bsrc);
        }
        assert forall|i: int| 0 <= i < blocks@.len() implies (#[trigger] blocks@[i]).out_refs@ == listed_successors(offs, *f, blocks@[i].offset, 0) by {
            assert(blocks@[i].out_refs@ =~= Seq::<usize>::empty());
        }
    }
    let mut e: usize = 0;
    while e < f.edges.len()
        invariant
            e <= f.edges@.len(),
            n == f.blocks@.len(),
            offsets_of(blocks@) == offs,
            block_keys_distinct(*f) ==> forall|i: int, j: int| 0 <= i < blocks@.len() && 0 <= j < blocks@.len() && i != j ==> blocks@[i].offset != blocks@[j].offset,
            block_keys_distinct(*f) ==> forall|i: int| 0 <= i < blocks@.len() ==>
                (#[trigger] blocks@[i]).out_refs@ == listed_successors(offs, *f, blocks@[i].offset, e as int),
            blocks_ready(blocks@, n as int),
            blocks_from(blocks@, *f, bsrc),
            edges_resolve(*f),
            forall|q: int| 0 <= q < f.blocks@.len() ==> offset_present(blocks@, #[trigger] f.blocks@[q].0),
            forall|x: int, d: int| 0 <= x < e && 0 <= d < f.edges@[x].1@.len()
                ==> edge_recorded(blocks@, f.edges@[x].0, #[trigger] f.edges@[x].1@[d]),
            successors_listed(blocks@, *f),
        decreases f.edges@.len() - e,
    {
        proof {
            assert(edge_resolves(*f, f.edges@[e as int]));
        }
        // Every edge was checked above, so each lookup finds its block.
        proof {
            assert(has_block(*f, f.edges@[e as int].0));
        }
        match find_block(&blocks, f.edges[e].0) {
            Some(src) => {
                let dsts = &f.edges[e].1;
                let mut d: usize = 0;
                while d < dsts.len()
                    invariant
                        d <= dsts@.len(),
                        src < n,
                        blocks_ready(blocks@, n as int),
                        blocks_from(blocks@, *f, bsrc),
                        e < f.edges@.len(),
                        dsts == &f.edges@[e as int].1,
                        edge_resolves(*f, f.edges@[e as int]),
                        blocks@[src as int].offset == f.edges@[e as int].0,
                        offsets_of(blocks@) == offs,
                        block_keys_distinct(*f) ==> forall|i: int, j: int| 0 <= i < blocks@.len() && 0 <= j < blocks@.len() && i != j ==> blocks@[i].offset != blocks@[j].offset,
                        block_keys_distinct(*f) ==> forall|i: int| 0 <= i < blocks@.len() ==>
                            (#[trigger] blocks@[i]).out_refs@ == listed_successors(offs, *f, blocks@[i].offset, e as int)
                                + (if blocks@[i].offset == f.edges@[e as int].0 { f.edges@[e as int].1@.take(d as int).map_values(|o: u64| index_of(offs, o)) } else { Seq::empty() }),
                        forall|q: int| 0 <= q < f.blocks@.len() ==> offset_present(blocks@, #[trigger] f.blocks@[q].0),
                        forall|x: int, d: int| 0 <= x < e && 0 <= d < f.edges@[x].1@.len()
                            ==> edge_recorded(blocks@, f.edges@[x].0, #[trigger] f.edges@[x].1@[d]),
                        forall|y: int| 0 <= y < d ==> edge_recorded(blocks@, f.edges@[e as int].0, #[trigger] f.edges@[e as int].1@[y]),
                        successors_listed(blocks@, *f),
                    decreases dsts@.len() - d,
                {
                    let ghost pre = blocks@;
                    match find_block(&blocks, dsts[d]) {
                        Some(dst) => {
                            add_edge(&mut blocks, src, dst);
                            proof {
                                let post = blocks@;
                                assert forall|x: int, dd: int| 0 <= x < e && 0 <= dd < f.edges@[x].1@.len()
                                    implies edge_recorded(post, f.edges@[x].0, #[trigger] f.edges@[x].1@[dd]) by {
                                    lemma_edge_kept(pre, post, src as int, dst, f.edges@[x].0, f.edges@[x].1@[dd]);
                                }
                                assert forall|y: int| 0 <= y < d implies edge_recorded(post, f.edges@[e as int].0, #[trigger] f.edges@[e as int].1@[y]) by {
                                    lemma_edge_kept(pre, post, src as int, dst, f.edges@[e as int].0, f.edges@[e as int].1@[y]);
                                }
                                let kk = pre[src as int].out_refs@.len() as int;
                                assert(post[src as int].out_refs@[kk] == dst);
                                assert(edge_recorded(post, f.edges@[e as int].0, f.edges@[e as int].1@[d as int]));
                                assert(edge_listed(*f, f.edges@[e as int].0, f.edges@[e as int].1@[d as int]));
                                assert forall|i: int, k: int| 0 <= i < post.len() && 0 <= k < post[i].out_refs@.len()
                                    implies edge_listed(*f, post[i].offset, post[(#[trigger] post[i].out_refs@[k]) as int].offset) by {
                                    if i != src as int || k < kk {
                                        assert(post[i].out_refs@[k] == pre[i].out_refs@[k]);
                                        assert(edge_listed(*f, pre[i].offset, pre[pre[i].out_refs@[k] as int].offset));
                                    }
                                }
                                assert(offsets_of(post) =~= offsets_of(pre));
                                if block_keys_distinct(*f) {
                                    let o = f.edges@[e as int].1@[d as int];
                                    assert(offs[dst as int] == o);
                                    let c = choose|k: int| 0 <= k < offs.len() && offs[k] == o;
                                    assert(c == dst as int);
                                    assert(index_of(offs, o) == dst);
                                    assert(f.edges@[e as int].1@.take(d as int + 1).map_values(|o: u64| index_of(offs, o))
                                        =~= f.edges@[e as int].1@.take(d as int).map_values(|o: u64| index_of(offs, o)).push(dst));
                                    assert forall|i: int| 0 <= i < post.len() implies
                                        (#[trigger] post[i]).out_refs@ == listed_successors(offs, *f, post[i].offset, e as int)
                                            + (if post[i].offset == f.edges@[e as int].0 { f.edges@[e as int].1@.take(d as int + 1).map_values(|o: u64| index_of(offs, o)) } else { Seq::empty() }) by {
                                        if i == src as int {
                                            assert(post[i].out_refs@ == pre[i].out_refs@.push(dst));
                                        } else {
                                            assert(pre[i].offset != pre[src as int].offset);
                                        }
                                    }
                                }
                            }
                        },
                        None => {
                            proof {
                                assert(has_block(*f, dsts@[d as int]));
                                let q = choose|q: int| 0 <= q < f.blocks@.len() && (#[trigger] f.blocks@[q]).0 == dsts@[d as int];
                                assert(offset_present(blocks@, f.blocks@[q].0));
                            }
                        },
                    }
                    proof {
                        assert forall|i: int| 0 <= i < blocks@.len() implies 0 <= #[trigger] bsrc[i] < f.blocks@.len() && block_from(blocks@[i], f.blocks@[bsrc[i]]) by {
                            assert(block_from(pre[i], f.blocks@[bsrc[i]]));
                            assert(blocks@[i].offset == pre[i].offset && blocks@[i].instructions == pre[i].instructions);
                        }
                        assert forall|q: int| 0 <= q < f.blocks@.len() implies offset_present(blocks@, #[trigger] f.blocks@[q].0) by {
                            let i0 = choose|i: int| 0 <= i < pre.len() && (#[trigger] pre[i]).offset == f.blocks@[q].0;
                            assert(blocks@[i0].offset == pre[i0].offset);
                        }
                    }
                    d = d + 1;
                }
            },
            None => {
                proof {
                    let q = choose|q: int| 0 <= q < f.blocks@.len() && (#[trigger] f.blocks@[q]).0 == f.edges@[e as int].0;
                    assert(offset_present(blocks@, f.blocks@[q].0));
                }
            },
        }
        proof {
            if block_keys_distinct(*f) {
                assert(f.edges@[e as int].1@.take(f.edges@[e as int].1@.len() as int) =~= f.edges@[e as int].1@);
                assert forall|i: int| 0 <= i < blocks@.len() implies
                    (#[trigger] blocks@[i]).out_refs@ == listed_successors(offs, *f, blocks@[i].offset, e as int + 1) by {
                }
            }
            assert forall|x: int, d: int| 0 <= x < e + 1 && 0 <= d < f.edges@[x].1@.len()
                implies edge_recorded(blocks@, f.edges@[x].0, #[trigger] f.edges@[x].1@[d]) by {
                if x == e as int {
                    assert(f.edges@[x].1@[d] == f.edges@[e as int].1@[d]);
                }
            }
        }
        e = e + 1;
    }
    let g = ControlFlowGraph::new(name, f.offset, blocks);
    assert(blocks_from(g.blocks@, *f, bsrc));
    assert(edges_follow(g.blocks@, *f));
    assert(block_keys_distinct(*f) ==> successors_exact(g.blocks@, *f));
    assert(g.wf());
    assert(g.offset == f.offset);
    assert(g.name@ == name@);
    assert(g.blocks@.len() == f.blocks@.len());
    Some(g)
}

/// `regex::Regex::new` accepts the pattern (its syntax, within the default
/// size limits).
pub uninterp spec fn regex_valid(pattern: Seq<char>) -> bool;

/// The regular expression `pattern` matches somewhere in `text`.
pub uninterp spec fn regex_finds(pattern: Seq<char>, text: Seq<char>) -> bool;

/// Relies on `regex::Regex::new`, which accepts the pattern or not, and on
/// `regex::Regex::is_match` of the compiled regex, which tells whether it
/// matches somewhere in each text.
#[verifier::external_body]
fn regex_find_each(pattern: &str, texts: &Vec<String>) -> (r: Option<Vec<bool>>)
    ensures
        r is Some <==> regex_valid(pattern@),
        r matches Some(v) ==> v@.len() == texts@.len()
            && forall|k: int| 0 <= k < v@.len() ==> v@[k] == regex_finds(pattern@, #[trigger] texts@[k]@),
{
    let re = regex::Regex::new(pattern).ok()?;
    Some(texts.iter().map(|t| re.is_match(t)).collect())
}

/// Relies on `rand::seq::index::sample` with the thread-local generator:
/// `amount` distinct indices below `length`, drawn at random.
#[verifier::external_body]
fn random_indices(length: usize, amount: usize) -> (r: Vec<usize>)
    requires
        amount <= length,
    ensures
        r@.len() == amount,
        forall|k: int| 0 <= k < r@.len() ==> (#[trigger] r@[k]) < length,
        forall|j: int, k: int| 0 <= j < k < r@.len() ==> r@[j] != r@[k],
{
    rand::seq::index::sample(&mut rand::thread_rng(), length, amount).into_vec()
}

/// The graphs whose name the pattern matches, in their order.
pub open spec fn matching_graphs(graphs: Seq<ControlFlowGraph>, pattern: Seq<char>) -> Seq<ControlFlowGraph>
    decreases graphs.len(),
{
    if graphs.len() == 0 {
        Seq::empty()
    } else {
        let rest = matching_graphs(graphs.drop_last(), pattern);
        if regex_finds(pattern, graphs.last().name@) {
            rest.push(graphs.last())
        } else {
            rest
        }
    }
}

/// Number of graphs a subset of `len` graphs keeps for `ratio` (in units of
/// `SCALE`, clamped to 1.0), rounded down.
pub open spec fn subset_size(len: int, ratio: u64) -> int {
    let r = if ratio > SCALE { SCALE } else { ratio };
    len * r / (SCALE as int)
}

/// Graphs strictly ascending by offset.
pub open spec fn graphs_strictly_sorted(graphs: Seq<ControlFlowGraph>) -> bool {
    forall|i: int, j: int| 0 <= i < j < graphs.len() ==> graphs[i].offset < graphs[j].offset
}

/// `part` is `whole` taken at the strictly increasing indices `ks`.
pub open spec fn taken_at(part: Seq<ControlFlowGraph>, whole: Seq<ControlFlowGraph>, ks: Seq<int>) -> bool {
    &&& ks.len() == part.len()
    &&& forall|t: int| 0 <= t < ks.len() ==> 0 <= #[trigger] ks[t] < whole.len() && part[t] == whole[ks[t]]
    &&& forall|i: int, j: int| 0 <= i < j < ks.len() ==> ks[i] < ks[j]
}

/// Index of the first graph whose offset is above `offset`.
fn graph_insert_position(graphs: &Vec<ControlFlowGraph>, offset: u64) -> (p: usize)
    requires
        graphs_sorted(graphs@),
    ensures
        p <= graphs@.len(),
        forall|k: int| 0 <= k < p ==> (#[trigger] graphs@[k]).offset <= offset,
        forall|k: int| p <= k < graphs@.len() ==> (#[trigger] graphs@[k]).offset > offset,
{
    let mut p: usize = 0;
    while p < graphs.len() && graphs[p].offset <= offset
        invariant
            p <= graphs@.len(),
            graphs_sorted(graphs@),
            forall|k: int| 0 <= k < p ==> (#[trigger] graphs@[k]).offset <= offset,
        decreases graphs@.len() - p,
    {
        p = p + 1;
    }
    p
}

/// Index of the first value above `x`.
fn index_insert_position(v: &Vec<usize>, x: usize) -> (p: usize)
    requires
        forall|i: int, j: int| 0 <= i < j < v@.len() ==> v@[i] <= v@[j],
    ensures
        p <= v@.len(),
        forall|k: int| 0 <= k < p ==> (#[trigger] v@[k]) <= x,
        forall|k: int| p <= k < v@.len() ==> (#[trigger] v@[k]) > x,
{
    let mut p: usize = 0;
    while p < v.len() && v[p] <= x
        invariant
            p <= v@.len(),
            forall|i: int, j: int| 0 <= i < j < v@.len() ==> v@[i] <= v@[j],
            forall|k: int| 0 <= k < p ==> (#[trigger] v@[k]) <= x,
        decreases v@.len() - p,
    {
        p = p + 1;
    }
    p
}

impl Disassembly {
    /// Well-formed: every graph is, and they are ascending by offset.
    pub open spec fn wf(&self) -> bool {
        &&& graphs_wf(self.graphs@)
        &&& graphs_sorted(self.graphs@)
    }

    /// The disassembly of the binary `data`, read from `path` and named
    /// `name`.
    pub fn new(name: &str, path: &str, data: &Vec<u8>) -> (r: Result<Disassembly, Error>)
        ensures
            r matches Ok(d) ==> exists|s: SampleData| s.label@ == name@ && s.path@ == path@ && built_from_sample(d, s),
            r matches Ok(d) ==> strictly_sorted(d),
            r matches Err(e) ==> exists|s: SampleData| s.label@ == name@ && s.path@ == path@ && sample_error(s, e),
    {
        let sample = decode_sample(name, path, data);
        Disassembly::from_sample(&sample)
    }

    /// Builds the disassembly of one binary, named by its label.
    pub fn from_sample(sample: &SampleData) -> (r: Result<Disassembly, Error>)
        ensures
            r is Ok <==> sample_builds(*sample),
            r matches Ok(d) ==> built_from_sample(d, *sample),
            r matches Ok(d) ==> (sample.decoded matches DecodeOutcome::Functions(fs) && decoded_keys_distinct(fs@) ==> strictly_sorted(d)),
            r matches Err(e) ==> sample_error(*sample, e),
    {
        match &sample.decoded {
            DecodeOutcome::Functions(fs) => {
                let r = Disassembly::from_functions(sample.label.as_str(), sample.path.as_str(), &sample.symbols, fs);
                proof {
                    if r is Ok && decoded_keys_distinct(fs@) {
                        lemma_strictly_sorted(r->Ok_0, sample.label@, sample.path@, sample.symbols@, fs@);
                    }
                }
                r
            },
            DecodeOutcome::UnsupportedFormat => Err(Error::UnsupportedBinaryFormat { sample: sample.path.clone() }),
            DecodeOutcome::Failed => Err(Error::MalformedBinary { sample: sample.path.clone() }),
        }
    }

    /// Builds the disassembly of binary `name`, read from `path`, from what
    /// the decoder found in it and from its symbol table (address, name;
    /// `None` for a name that cannot be read). Fails when the decoder and the
    /// symbol table disagree: a function's symbol cannot be read, or an edge
    /// leaves its function.
    pub fn from_functions(
        name: &str,
        path: &str,
        symbols: &Vec<(u64, Option<String>)>,
        functions: &Vec<DecodedFunction>,
    ) -> (r: Result<Disassembly, Error>)
        ensures
            r is Ok <==> forall|i: int| 0 <= i < functions@.len() ==> {
                &&& !unreadable_symbol(symbols@, (#[trigger] functions@[i]).offset)
                &&& edges_resolve(functions@[i])
            },
            r matches Ok(d) ==> built_disassembly(d, name@, path@, symbols@, functions@),
            r matches Err(e) ==> e matches Error::MalformedBinary { sample } && sample@ == path@,
    {
        let index = index_symbols(symbols);
        let mut graphs: Vec<ControlFlowGraph> = Vec::new();
        let ghost mut gsrc: Seq<int> = Seq::empty();
        let mut k: usize = 0;
        while k < functions.len()
            invariant
                k <= functions@.len(),
                graphs@.len() == k,
                graphs_wf(graphs@),
                graphs_sorted(graphs@),
                graphs_from(graphs@, functions@, symbols@, gsrc),
                forall|i: int| 0 <= i < gsrc.len() ==> #[trigger] gsrc[i] < k,
                indexes_symbols(index@, symbols@),
                forall|i: int| 0 <= i < k ==> {
                    &&& !unreadable_symbol(symbols@, (#[trigger] functions@[i]).offset)
                    &&& edges_resolve(functions@[i])
                },
            decreases functions@.len() - k,
        {
            let f = &functions[k];
            let symbol = match symbol_name(symbols, &index, f.offset) {
                Some(s) => s,
                None => {
                    return Err(Error::MalformedBinary { sample: path.to_string() });
                },
            };
            let graph = match build_graph(symbol.as_str(), f) {
                Some(g) => g,
                None => {
                    return Err(Error::MalformedBinary { sample: path.to_string() });
                },
            };
            let p = graph_insert_position(&graphs, graph.offset);
            let ghost before = graphs@;
            let ghost gbefore = gsrc;
            graphs.insert(p, graph);
            proof {
                gsrc = gsrc.insert(p as int, k as int);
                assert(built_from(graphs@[p as int], functions@[k as int], symbols@));
                assert forall|i: int| 0 <= i < graphs@.len() implies 0 <= #[trigger] gsrc[i] < functions@.len() && built_from(graphs@[i], functions@[gsrc[i]], symbols@) by {
                    if i < p {
                        assert(graphs@[i] == before[i] && gsrc[i] == gbefore[i]);
                    } else if i > p {
                        assert(graphs@[i] == before[i - 1] && gsrc[i] == gbefore[i - 1]);
                    }
                }
                assert forall|i: int, j: int| 0 <= i < j < gsrc.len() implies gsrc[i] != gsrc[j] by {
                    if i < p && j > p {
                        assert(gsrc[i] == gbefore[i] && gsrc[j] == gbefore[j - 1]);
                    } else if j < p {
                        assert(gsrc[i] == gbefore[i] && gsrc[j] == gbefore[j]);
                    } else if i > p {
                        assert(gsrc[i] == gbefore[i - 1] && gsrc[j] == gbefore[j - 1]);
                    } else if i == p {
                        assert(gsrc[j] == gbefore[j - 1]);
                    } else {
                        assert(gsrc[i] == gbefore[i]);
                    }
                }
            }
            k = k + 1;
        }
        let d = Disassembly { name: name.to_string(), path: path.to_string(), graphs };
        assert(graphs_from(d.graphs@, functions@, symbols@, gsrc));
        Ok(d)
    }

    /// The graphs whose name the regular expression `search_expression`
    /// matches, in their order; fails when the expression does not compile.
    pub fn filter_symbol(self, search_expression: &str) -> (r: Result<Disassembly, Error>)
        requires
            self.wf(),
        ensures
            r is Ok <==> regex_valid(search_expression@),
            r matches Ok(d) ==> {
                &&& d.wf()
                &&& d.name == self.name
                &&& d.path == self.path
                &&& d.graphs@ == matching_graphs(self.graphs@, search_expression@)
            },
            r matches Err(e) ==> e matches Error::InvalidSymbolPattern { pattern } && pattern@ == search_expression@,
    {
        let mut names: Vec<String> = Vec::new();
        let mut i: usize = 0;
        while i < self.graphs.len()
            invariant
                i <= self.graphs@.len(),
                names@.len() == i,
                forall|j: int| 0 <= j < i ==> (#[trigger] names@[j])@ == self.graphs@[j].name@,
            decreases self.graphs@.len() - i,
        {
            names.push(self.graphs[i].name.clone());
            i = i + 1;
        }
        let found = match regex_find_each(search_expression, &names) {
            Some(found) => found,
            None => {
                return Err(Error::InvalidSymbolPattern { pattern: search_expression.to_string() });
            },
        };
        let Disassembly { name, path, graphs } = self;
        let ghost all = graphs@;
        proof {
            assert forall|j: int| 0 <= j < all.len() implies found@[j] == regex_finds(search_expression@, (#[trigger] all[j]).name@) by {
                assert(names@[j]@ == all[j].name@);
            }
        }
        let total: usize = graphs.len();
        let mut rest = graphs;
        let mut kept: Vec<ControlFlowGraph> = Vec::new();
        let mut k: usize = 0;
        let ghost mut last: int = -1;
        // `rest` is consumed from the front, so the graphs are moved, not copied.
        while rest.len() > 0
            invariant
                regex_valid(search_expression@),
                found@.len() == all.len(),
                forall|j: int| 0 <= j < all.len() ==> found@[j] == regex_finds(search_expression@, (#[trigger] all[j]).name@),
                k + rest@.len() == all.len(),
                total == all.len(),
                rest@ == all.subrange(k as int, all.len() as int),
                kept@ == matching_graphs(all.take(k as int), search_expression@),
                graphs_wf(all),
                graphs_sorted(all),
                -1 <= last < k,
                kept@.len() > 0 ==> 0 <= last && kept@.last() == all[last],
                graphs_wf(kept@),
                graphs_sorted(kept@),
            decreases rest@.len(),
        {
            let g = rest.remove(0);
            assert(g == all[k as int]);
            assert(all.take(k as int + 1).drop_last() =~= all.take(k as int));
            if found[k] {
                proof {
                    last = k as int;
                }
                kept.push(g);
            }
            assert(rest@ =~= all.subrange(k as int + 1, all.len() as int));
            k = k + 1;
        }
        assert(all.take(k as int) =~= all);
        Ok(Disassembly { name, path, graphs: kept })
    }

    /// A random subset of the graphs, of `subset_size(len, ratio)` of them,
    /// `ratio` being in units of `SCALE`; they keep their order.
    pub fn to_subset(self, ratio: u64) -> (r: Disassembly)
        requires
            self.wf(),
        ensures
            r.wf(),
            r.name == self.name,
            r.path == self.path,
            r.graphs@.len() == subset_size(self.graphs@.len() as int, ratio),
            forall|k: int| 0 <= k < r.graphs@.len() ==> self.graphs@.contains(#[trigger] r.graphs@[k]),
            exists|ks: Seq<int>| taken_at(r.graphs@, self.graphs@, ks),
            graphs_strictly_sorted(self.graphs@) ==> graphs_strictly_sorted(r.graphs@),
    {
        let Disassembly { name, path, graphs } = self;
        let ghost all = graphs@;
        let len = graphs.len();
        let clamped: u64 = if ratio > SCALE { SCALE } else { ratio };
        proof {
            assert((len as int) * (clamped as int) <= 0xffff_ffff_ffff_ffff * 1_000_000_000) by (nonlinear_arith)
                requires len <= 0xffff_ffff_ffff_ffff, clamped <= 1_000_000_000;
        }
        let amount_wide: u128 = (len as u128) * (clamped as u128) / (SCALE as u128);
        proof {
            let l = len as int;
            let c = clamped as int;
            assert(l * c / (SCALE as int) <= l) by (nonlinear_arith)
                requires c <= SCALE, l >= 0, c >= 0;
            assert(amount_wide == l * c / (SCALE as int));
        }
        let amount = amount_wide as usize;
        let drawn = random_indices(len, amount);
        // Chosen indices, ascending.
        let mut chosen: Vec<usize> = Vec::new();
        let mut k: usize = 0;
        while k < drawn.len()
            invariant
                k <= drawn@.len(),
                chosen@.len() == k,
                forall|i: int| 0 <= i < chosen@.len() ==> (#[trigger] chosen@[i]) < len,
                forall|i: int, j: int| 0 <= i < j < chosen@.len() ==> chosen@[i] < chosen@[j],
                forall|i: int| 0 <= i < chosen@.len() ==> exists|j: int| 0 <= j < k && drawn@[j] == #[trigger] chosen@[i],
                forall|i: int| 0 <= i < drawn@.len() ==> (#[trigger] drawn@[i]) < len,
                forall|j: int, i: int| 0 <= j < i < drawn@.len() ==> drawn@[j] != drawn@[i],
            decreases drawn@.len() - k,
        {
            let x = drawn[k];
            let p = index_insert_position(&chosen, x);
            let ghost before = chosen@;
            proof {
                if p > 0 {
                    let i = p - 1;
                    let j = choose|j: int| 0 <= j < k && drawn@[j] == before[i];
                    assert(before[i] != x);
                }
            }
            chosen.insert(p, x);
            proof {
                assert forall|i: int| 0 <= i < chosen@.len() implies exists|j: int| 0 <= j < k + 1 && drawn@[j] == #[trigger] chosen@[i] by {
                    if i < p {
                        assert(chosen@[i] == before[i]);
                    } else if i > p {
                        assert(chosen@[i] == before[i - 1]);
                    } else {
                        assert(drawn@[k as int] == chosen@[i]);
                    }
                }
            }
            k = k + 1;
        }
        // Move every graph into a slot, then take the chosen ones in order.
        let mut slots: Vec<Option<ControlFlowGraph>> = Vec::new();
        let mut rest = graphs;
        while rest.len() > 0
            invariant
                slots@.len() + rest@.len() == all.len(),
                rest@ == all.subrange(slots@.len() as int, all.len() as int),
                forall|i: int| 0 <= i < slots@.len() ==> (#[trigger] slots@[i]) == Some(all[i]),
            decreases rest@.len(),
        {
            let g = rest.remove(0);
            assert(rest@ =~= all.subrange(slots@.len() as int + 1, all.len() as int));
            slots.push(Some(g));
        }
        let mut picked: Vec<ControlFlowGraph> = Vec::new();
        let mut t: usize = 0;
        while t < chosen.len()
            invariant
                t <= chosen@.len(),
                chosen@.len() == amount,
                slots@.len() == all.len(),
                len == all.len(),
                graphs_wf(all),
                graphs_sorted(all),
                forall|i: int| 0 <= i < chosen@.len() ==> (#[trigger] chosen@[i]) < len,
                forall|i: int, j: int| 0 <= i < j < chosen@.len() ==> chosen@[i] < chosen@[j],
                forall|i: int| t <= i < chosen@.len() ==> slots@[#[trigger] chosen@[i] as int] == Some(all[chosen@[i] as int]),
                picked@.len() == t,
                forall|i: int| 0 <= i < t ==> (#[trigger] picked@[i]) == all[chosen@[i] as int],
            decreases chosen@.len() - t,
        {
            let at = chosen[t];
            let slot = slots.remove(at);
            slots.insert(at, None);
            match slot {
                Some(g) => {
                    picked.push(g);
                },
                None => {
                    // Cannot happen: each index is taken once.
                    assert(false);
                },
            }
            proof {
                assert forall|i: int| t + 1 <= i < chosen@.len() implies slots@[#[trigger] chosen@[i] as int] == Some(all[chosen@[i] as int]) by {
                    assert(chosen@[i] != at);
                }
            }
            t = t + 1;
        }
        proof {
            assert forall|i: int, j: int| 0 <= i < j < picked@.len() implies picked@[i].offset <= picked@[j].offset by {
                assert(chosen@[i] < chosen@[j]);
            }
            assert forall|k: int| 0 <= k < picked@.len() implies all.contains(#[trigger] picked@[k]) by {
                assert(all[chosen@[k] as int] == picked@[k]);
            }
            assert forall|k: int| 0 <= k < picked@.len() implies (#[trigger] picked@[k]).wf() by {
                assert(all[chosen@[k] as int].wf());
            }
        }
        proof {
            let ks = chosen@.map_values(|x: usize| x as int);
            assert(taken_at(picked@, all, ks));
            if graphs_strictly_sorted(all) {
                assert forall|i: int, j: int| 0 <= i < j < picked@.len() implies picked@[i].offset < picked@[j].offset by {
                    assert(chosen@[i] < chosen@[j]);
                    assert(picked@[i] == all[chosen@[i] as int] && picked@[j] == all[chosen@[j] as int]);
                }
            }
        }
        Disassembly { name, path, graphs: picked }
    }

    /// Label of the binary.
    pub fn name(&self) -> (r: &String)
        ensures
            r == &self.name,
    {
        &self.name
    }

    /// Where the binary was read from.
    pub fn path(&self) -> (r: &String)
        ensures
            r == &self.path,
    {
        &self.path
    }

    /// The graphs of the binary's functions.
    pub fn graphs(&self) -> (r: &Vec<ControlFlowGraph>)
        ensures
            r == &self.graphs,
    {
        &self.graphs
    }
}

} // verus!
