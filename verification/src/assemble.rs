//! The whole pipeline: classify the source lines, run the label pass, run
//! the variable pass, then encode under the completed symbol table.

use vstd::prelude::*;
use vstd::pervasive::unreached;
use crate::encode::{encode, encode_seq, lemma_encode_no_unresolved, AsmError, AsmErrorView};
use crate::instruction::{instructions_from, InstrView, Parser};
use crate::symbols::{
    label_pass,
    label_pass_map,
    lemma_label_address,
    lemma_var_pass_preserves,
    lemma_var_pass_resolves,
    lemma_variable_addresses,
    new_vars,
    predefined_map,
    rom_count,
    var_pass_map,
    variable_pass,
    SymbolTable,
    MAX_INSTRUCTIONS,
};
use crate::text::{dec_u16, split_lines_spec};

verus! {

/// The instructions a source text holds.
pub open spec fn source_instructions(src: Seq<char>) -> Seq<InstrView> {
    instructions_from(split_lines_spec(src))
}

/// The completed symbol table of an instruction sequence: the predefined
/// constants, then the labels, then the variables, in that order, since a
/// label must be resolvable before variable addresses are given out.
pub open spec fn resolved_table(is: Seq<InstrView>) -> Map<Seq<char>, u16> {
    var_pass_map(is, label_pass_map(is, predefined_map(), 0), 16)
}

/// The result of assembling a source text: one 16-bit word per address or
/// compute instruction, in source order, or the first fatal error.
pub open spec fn assemble_spec(src: Seq<char>) -> Result<Seq<Seq<char>>, AsmErrorView> {
    let is = source_instructions(src);
    if is.len() > MAX_INSTRUCTIONS {
        Err(AsmErrorView::ProgramTooLarge)
    } else {
        encode_seq(is, resolved_table(is))
    }
}

/// Assembles a source text, as `assemble_spec` describes.
pub fn assemble(source: &str) -> (r: Result<Vec<String>, AsmError>)
    ensures
        r matches Ok(words) ==> assemble_spec(source@) == Ok::<Seq<Seq<char>>, AsmErrorView>(
            words@.map_values(|w: String| w@),
        ),
        r matches Err(e) ==> assemble_spec(source@) == Err::<Seq<Seq<char>>, AsmErrorView>(e@),
{
    let mut parser = match Parser::build(source) {
        Ok(p) => p,
        Err(_) => unreached(),
    };
    let instrs = parser.collect_instructions();
    if instrs.len() > MAX_INSTRUCTIONS {
        return Err(AsmError::ProgramTooLarge);
    }
    let mut table = SymbolTable::new();
    label_pass(&instrs, &mut table);
    variable_pass(&instrs, &mut table);
    encode(&instrs, &table)
}

/// Assembly is deterministic: the output is a function of the source text
/// alone, so assembling the same text twice gives identical output.
pub proof fn lemma_assemble_deterministic(s1: Seq<char>, s2: Seq<char>)
    requires
        s1 == s2,
    ensures
        assemble_spec(s1) == assemble_spec(s2),
{
}

/// The two passes leave no address symbol unresolved: assembly fails only
/// on an unknown comp mnemonic or an oversized program.
pub proof fn lemma_assemble_no_unresolved(src: Seq<char>)
    ensures
        assemble_spec(src) matches Err(e) ==> !(e is UnresolvedSymbol),
{
    let is = source_instructions(src);
    if is.len() <= MAX_INSTRUCTIONS {
        let m0 = label_pass_map(is, predefined_map(), 0);
        let m = resolved_table(is);
        assert forall|j: int|
            0 <= j < is.len() implies (#[trigger] is[j] matches InstrView::A(sym) ==> (dec_u16(
            sym,
        ) is Some || m.contains_key(sym))) by {
            match is[j] {
                InstrView::A(sym) => {
                    if dec_u16(sym) is None {
                        lemma_var_pass_resolves(is, m0, 16, j, sym);
                    }
                },
                _ => {},
            }
        }
        lemma_encode_no_unresolved(is, m);
    }
}

/// In the completed table a label is bound to the ROM address of the
/// instruction that follows its last definition; a label defined at the
/// very end of the program is bound to the total instruction count.
pub proof fn lemma_resolved_label_address(is: Seq<InstrView>, i: int, sym: Seq<char>)
    requires
        0 <= i < is.len(),
        is[i] == InstrView::L(sym),
        forall|j: int| i < j < is.len() ==> is[j] != InstrView::L(sym),
        rom_count(is) <= 0xFFFF,
    ensures
        resolved_table(is).contains_key(sym),
        resolved_table(is)[sym] as int == rom_count(is.take(i)),
{
    lemma_label_address(is, predefined_map(), 0, i, sym);
    lemma_var_pass_preserves(is, label_pass_map(is, predefined_map(), 0), 16, sym);
}

/// In the completed table the `k`-th distinct new variable symbol (in
/// first-occurrence order, symbols already bound as predefined constants or
/// labels excluded) is bound to address `16 + k`: variable addresses start
/// at 16, strictly increase, and a re-referenced symbol takes no new one.
pub proof fn lemma_resolved_variable_addresses(is: Seq<InstrView>, k: int)
    requires
        0 <= k < new_vars(is, label_pass_map(is, predefined_map(), 0).dom()).len(),
        16 + new_vars(is, label_pass_map(is, predefined_map(), 0).dom()).len() <= 0x10000,
    ensures
        resolved_table(is).contains_key(
            new_vars(is, label_pass_map(is, predefined_map(), 0).dom())[k],
        ),
        resolved_table(is)[new_vars(is, label_pass_map(is, predefined_map(), 0).dom())[k]] as int
            == 16 + k,
{
    lemma_variable_addresses(is, label_pass_map(is, predefined_map(), 0), 16, k);
}

} // verus!
