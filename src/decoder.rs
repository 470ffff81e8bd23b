use vstd::prelude::*;
use crate::control_flow_graph::Instruction;
use object::{Object, ObjectSymbol};
use crate::disassembly::{block_keys_distinct, decoded_keys_distinct, DecodeOutcome, DecodedFunction, SampleData};

verus! {

#[verifier::external_type_specification]
#[verifier::external_body]
pub struct ExDisassemblyReport<'a>(smda::report::DisassemblyReport<'a>);

#[verifier::external_type_specification]
#[verifier::external_body]
pub struct ExFunction(smda::function::Function);

/// Why the decoder gave up on a binary.
pub enum DecodeFailure {
    /// It does not know the binary's format.
    Unsupported,
    /// Any other reason.
    Other,
}

/// Relies on `smda::Disassembler::parse`, with high accuracy and tail-call
/// resolution on: decodes the binary, or fails, telling apart an unknown
/// format (`smda::Error::UnsupportedFormatError`).
#[verifier::external_body]
fn smda_parse<'a>(path: &str, data: &'a [u8]) -> Result<smda::report::DisassemblyReport<'a>, DecodeFailure> {
    let config = smda::SmdaConfig::new().path(path).high_accuracy(true).resolve_tailcalls(true);
    match smda::Disassembler::parse(data, &config) {
        Ok(report) => Ok(report),
        Err(smda::Error::UnsupportedFormatError) => Err(DecodeFailure::Unsupported),
        Err(_) => Err(DecodeFailure::Other),
    }
}

/// Relies on `smda::report::DisassemblyReport::get_functions`: each function
/// found, with its entry offset, in the order of smda's map, whose keys the
/// entry offsets are (hence distinct).
#[verifier::external_body]
fn smda_functions<'r>(report: &'r smda::report::DisassemblyReport<'_>) -> (r: Option<Vec<(u64, &'r smda::function::Function)>>)
    ensures
        r matches Some(v) ==> forall|i: int, j: int| 0 <= i < j < v@.len() ==> v@[i].0 != v@[j].0,
{
    report.get_functions().ok().map(|fs| fs.iter().map(|(offset, f)| (*offset, f)).collect())
}

/// Relies on `smda::function::Function::get_blocks` and
/// `smda::function::Instruction::bytes_in`: each block's offset and the bytes
/// of its instructions, in program order, blocks in the order of smda's map,
/// whose keys the block offsets are (hence distinct).
#[verifier::external_body]
fn smda_blocks(report: &smda::report::DisassemblyReport<'_>, f: &smda::function::Function) -> (r: Option<Vec<(u64, Vec<Instruction>)>>)
    ensures
        r matches Some(v) ==> forall|i: int, j: int| 0 <= i < j < v@.len() ==> v@[i].0 != v@[j].0,
{
    let blocks = f.get_blocks().ok()?;
    blocks.iter().map(|(offset, instrs)| {
        let bytes = instrs.iter().map(|i| i.bytes_in(&report.binary_info).ok().map(|b| Instruction { bytes: b.to_vec() }));
        bytes.collect::<Option<Vec<Instruction>>>().map(|v| (*offset, v))
    }).collect()
}

/// Relies on `smda::function::Function::blockrefs`: each block's offset with
/// the offsets of the blocks it flows into, in the order of smda's map.
#[verifier::external_body]
fn smda_edges(f: &smda::function::Function) -> Vec<(u64, Vec<u64>)> {
    f.blockrefs.iter().map(|(from, to)| (*from, to.clone())).collect()
}

/// Relies on `object::File::parse` and its symbol table (`ObjectSymbol::address`,
/// `ObjectSymbol::name`): each symbol's address and name, `None` for a name
/// that cannot be read; `None` for bytes that are no object file.
#[verifier::external_body]
fn object_symbols(data: &[u8]) -> Option<Vec<(u64, Option<String>)>> {
    let parsed = object::File::parse(data).ok()?;
    Some(parsed.symbols().map(|s| (s.address(), s.name().ok().map(|n| n.to_string()))).collect())
}

/// What the decoder and the object reader find in the binary `data`, read
/// from `path` and labelled `label`. A format the decoder does not know
/// gives `UnsupportedFormat`; any other failure of either gives `Failed`.
pub fn decode_sample(label: &str, path: &str, data: &Vec<u8>) -> (r: SampleData)
    ensures
        r.label@ == label@,
        r.path@ == path@,
        r.decoded matches DecodeOutcome::Functions(fs) ==> decoded_keys_distinct(fs@),
{
    let decoded = match smda_parse(path, data.as_slice()) {
        Err(DecodeFailure::Unsupported) => DecodeOutcome::UnsupportedFormat,
        Err(DecodeFailure::Other) => DecodeOutcome::Failed,
        Ok(report) => match smda_functions(&report) {
            None => DecodeOutcome::Failed,
            Some(found) => {
                let mut functions: Vec<DecodedFunction> = Vec::new();
                let mut failed = false;
                let mut k: usize = 0;
                while k < found.len() && !failed
                    invariant
                        k <= found@.len(),
                        forall|i: int, j: int| 0 <= i < j < found@.len() ==> found@[i].0 != found@[j].0,
                        !failed ==> functions@.len() == k,
                        forall|i: int| 0 <= i < functions@.len() ==> (#[trigger] functions@[i]).offset == found@[i].0,
                        forall|i: int| 0 <= i < functions@.len() ==> block_keys_distinct(#[trigger] functions@[i]),
                    decreases found@.len() - k,
                {
                    let (offset, f) = found[k];
                    match smda_blocks(&report, f) {
                        Some(blocks) => {
                            functions.push(DecodedFunction { offset, blocks, edges: smda_edges(f) });
                        },
                        None => {
                            failed = true;
                        },
                    }
                    k = k + 1;
                }
                proof {
                    if !failed {
                        assert forall|i: int, j: int| 0 <= i < j < functions@.len() implies functions@[i].offset != functions@[j].offset by {
                            assert(functions@[i].offset == found@[i].0 && functions@[j].offset == found@[j].0);
                        }
                    }
                }
                if failed {
                    DecodeOutcome::Failed
                } else {
                    DecodeOutcome::Functions(functions)
                }
            },
        },
    };
    let (symbols, decoded) = match decoded {
        DecodeOutcome::Functions(functions) => match object_symbols(data.as_slice()) {
            Some(symbols) => (symbols, DecodeOutcome::Functions(functions)),
            None => (Vec::new(), DecodeOutcome::Failed),
        },
        other => (Vec::new(), other),
    };
    SampleData { label: label.to_string(), path: path.to_string(), symbols, decoded }
}

} // verus!
