use vstd::prelude::*;
use crate::fingerprint::{chibi_digest, fingerprint, le_bytes, push_le_bytes, FINGERPRINT_SEED};

verus! {

/// One decoded instruction; its raw bytes are what the comparisons look at.
#[derive(Debug, Clone)]
pub struct Instruction {
    pub bytes: Vec<u8>,
}

/// Basic block of a control flow graph.
#[derive(Debug, Clone)]
pub struct BasicBlock {
    /// Offset of the block relative to the code segment.
    pub offset: u64,
    /// Instructions, in program order.
    pub instructions: Vec<Instruction>,
    /// Indices, in the enclosing graph, of the blocks that flow into this one.
    pub in_refs: Vec<usize>,
    /// Indices, in the enclosing graph, of the blocks this one flows into.
    pub out_refs: Vec<usize>,
    /// Fingerprint of the block's instruction bytes.
    pub hash: u64,
}

/// Control flow graph of one function.
#[derive(Debug, Clone)]
pub struct ControlFlowGraph {
    /// Symbol of the function, empty when none was found.
    pub name: String,
    /// Entry offset of the function.
    pub offset: u64,
    /// Basic blocks, ascending by offset.
    pub blocks: Vec<BasicBlock>,
    /// Fingerprint of the blocks' fingerprints.
    pub hash: u64,
}

/// The bytes of each instruction, one after the other.
pub open spec fn instruction_bytes(instrs: Seq<Instruction>) -> Seq<u8>
    decreases instrs.len(),
{
    if instrs.len() == 0 {
        Seq::empty()
    } else {
        instruction_bytes(instrs.drop_last()) + instrs.last().bytes@
    }
}

/// The byte view of each instruction.
pub open spec fn instruction_views(instrs: Seq<Instruction>) -> Seq<Seq<u8>> {
    instrs.map_values(|i: Instruction| i.bytes@)
}

/// The fingerprint a block with these instructions carries.
pub open spec fn block_fingerprint(instrs: Seq<Instruction>) -> u64 {
    chibi_digest(FINGERPRINT_SEED, instruction_bytes(instrs))
}

/// The block fingerprints, eight bytes each, least significant first.
pub open spec fn hash_bytes(blocks: Seq<BasicBlock>) -> Seq<u8>
    decreases blocks.len(),
{
    if blocks.len() == 0 {
        Seq::empty()
    } else {
        hash_bytes(blocks.drop_last()) + le_bytes(blocks.last().hash)
    }
}

/// The fingerprint a graph with these blocks carries.
pub open spec fn graph_fingerprint(blocks: Seq<BasicBlock>) -> u64 {
    chibi_digest(FINGERPRINT_SEED, hash_bytes(blocks))
}

/// Every edge of the block stays inside a graph of `n` blocks.
pub open spec fn refs_below(b: BasicBlock, n: int) -> bool {
    &&& forall|k: int| 0 <= k < b.in_refs.len() ==> (#[trigger] b.in_refs[k]) < n
    &&& forall|k: int| 0 <= k < b.out_refs.len() ==> (#[trigger] b.out_refs[k]) < n
}

/// Edges are recorded at both ends: block `j` is listed as many times among
/// the successors of block `i` as `i` among the predecessors of `j`.
pub open spec fn refs_dual(blocks: Seq<BasicBlock>) -> bool {
    forall|i: int, j: int| 0 <= i < blocks.len() && 0 <= j < blocks.len() ==>
        (#[trigger] blocks[i].out_refs@.to_multiset()).count(j as usize) == (#[trigger] blocks[j].in_refs@.to_multiset()).count(i as usize)
}

/// Blocks are ascending by offset.
pub open spec fn offsets_sorted(blocks: Seq<BasicBlock>) -> bool {
    forall|i: int, j: int| 0 <= i < j < blocks.len() ==> blocks[i].offset <= blocks[j].offset
}

impl BasicBlock {
    /// The block's fingerprint matches its instructions.
    pub open spec fn hash_valid(&self) -> bool {
        self.hash == block_fingerprint(self.instructions@)
    }

    /// Creates a block without edges.
    pub fn new(offset: u64, instructions: &Vec<Instruction>) -> (r: Self)
        ensures
            r.offset == offset,
            instruction_views(r.instructions@) == instruction_views(instructions@),
            instruction_bytes(r.instructions@) == instruction_bytes(instructions@),
            r.in_refs@.len() == 0,
            r.out_refs@.len() == 0,
            r.hash_valid(),
    {
        let mut data: Vec<u8> = Vec::new();
        let mut copy: Vec<Instruction> = Vec::new();
        let mut i: usize = 0;
        while i < instructions.len()
            invariant
                i <= instructions@.len(),
                data@ == instruction_bytes(instructions@.take(i as int)),
                copy@.len() == i,
                forall|k: int| 0 <= k < i ==> (#[trigger] copy@[k]).bytes@ == instructions@[k].bytes@,
                instruction_bytes(copy@) == data@,
            decreases instructions@.len() - i,
        {
            let bytes = clone_bytes(&instructions[i].bytes);
            let mut k: usize = 0;
            let ghost before = data@;
            while k < bytes.len()
                invariant
                    k <= bytes@.len(),
                    data@ == before + bytes@.take(k as int),
                decreases bytes@.len() - k,
            {
                data.push(bytes[k]);
                assert(bytes@.take(k as int + 1) =~= bytes@.take(k as int).push(bytes@[k as int]));
                k = k + 1;
            }
            assert(bytes@.take(k as int) =~= bytes@);
            let ghost prev = copy@;
            copy.push(Instruction { bytes });
            assert(instructions@.take(i as int + 1).drop_last() =~= instructions@.take(i as int));
            assert(copy@.drop_last() =~= prev);
            i = i + 1;
        }
        assert(instructions@.take(i as int) =~= instructions@);
        assert(instruction_views(copy@) =~= instruction_views(instructions@));
        let hash = fingerprint(&data);
        BasicBlock { offset, instructions: copy, in_refs: Vec::new(), out_refs: Vec::new(), hash }
    }

    /// Offset of the block relative to the code segment.
    pub fn offset(&self) -> (r: u64)
        ensures
            r == self.offset,
    {
        self.offset
    }

    /// The block's instructions.
    pub fn instructions(&self) -> (r: &Vec<Instruction>)
        ensures
            r == &self.instructions,
    {
        &self.instructions
    }

    /// Indices of the blocks that flow into this one.
    pub fn in_refs(&self) -> (r: &Vec<usize>)
        ensures
            r == &self.in_refs,
    {
        &self.in_refs
    }

    /// Indices of the blocks this one flows into.
    pub fn out_refs(&self) -> (r: &Vec<usize>)
        ensures
            r == &self.out_refs,
    {
        &self.out_refs
    }

    /// Fingerprint of the block's instructions.
    pub fn hash(&self) -> (r: u64)
        ensures
            r == self.hash,
    {
        self.hash
    }
}

/// A copy of a byte string.
pub fn clone_bytes(b: &Vec<u8>) -> (r: Vec<u8>)
    ensures
        r@ == b@,
{
    let mut out: Vec<u8> = Vec::new();
    let mut k: usize = 0;
    while k < b.len()
        invariant
            k <= b@.len(),
            out@ == b@.take(k as int),
        decreases b@.len() - k,
    {
        out.push(b[k]);
        assert(b@.take(k as int + 1) =~= b@.take(k as int).push(b@[k as int]));
        k = k + 1;
    }
    assert(b@.take(k as int) =~= b@);
    out
}

impl ControlFlowGraph {
    /// Well-formed graph: edges stay inside it and are recorded at both
    /// ends, blocks are ascending by offset, and every fingerprint matches
    /// what it covers.
    pub open spec fn wf(&self) -> bool {
        &&& forall|i: int| 0 <= i < self.blocks@.len() ==> refs_below(#[trigger] self.blocks@[i], self.blocks@.len() as int)
        &&& forall|i: int| 0 <= i < self.blocks@.len() ==> (#[trigger] self.blocks@[i]).hash_valid()
        &&& offsets_sorted(self.blocks@)
        &&& refs_dual(self.blocks@)
        &&& self.hash == graph_fingerprint(self.blocks@)
    }

    /// Creates a graph from blocks ascending by offset.
    pub fn new(name: &str, offset: u64, blocks: Vec<BasicBlock>) -> (r: Self)
        requires
            forall|i: int| 0 <= i < blocks@.len() ==> refs_below(#[trigger] blocks@[i], blocks@.len() as int),
            forall|i: int| 0 <= i < blocks@.len() ==> (#[trigger] blocks@[i]).hash_valid(),
            offsets_sorted(blocks@),
            refs_dual(blocks@),
        ensures
            r.wf(),
            r.name@ == name@,
            r.offset == offset,
            r.blocks@ == blocks@,
    {
        let mut data: Vec<u8> = Vec::new();
        let mut i: usize = 0;
        while i < blocks.len()
            invariant
                i <= blocks@.len(),
                data@ == hash_bytes(blocks@.take(i as int)),
            decreases blocks@.len() - i,
        {
            push_le_bytes(&mut data, blocks[i].hash);
            assert(blocks@.take(i as int + 1).drop_last() =~= blocks@.take(i as int));
            i = i + 1;
        }
        assert(blocks@.take(i as int) =~= blocks@);
        let hash = fingerprint(&data);
        ControlFlowGraph { name: name.to_string(), offset, blocks, hash }
    }

    /// Name of the function.
    pub fn name(&self) -> (r: &String)
        ensures
            r == &self.name,
    {
        &self.name
    }

    /// Entry offset of the function.
    pub fn offset(&self) -> (r: u64)
        ensures
            r == self.offset,
    {
        self.offset
    }

    /// The graph's basic blocks.
    pub fn blocks(&self) -> (r: &Vec<BasicBlock>)
        ensures
            r == &self.blocks,
    {
        &self.blocks
    }

    /// Fingerprint of the graph's blocks.
    pub fn hash(&self) -> (r: u64)
        ensures
            r == self.hash,
    {
        self.hash
    }
}

} // verus!
