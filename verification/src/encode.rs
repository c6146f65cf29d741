//! Mnemonic-to-bit-pattern encoding: each address or compute instruction
//! becomes one 16-character word of `'0'`/`'1'` characters.

use vstd::prelude::*;
use vstd::string::*;
use vstd::arithmetic::div_mod::{
    lemma_basic_div,
    lemma_div_basics,
    lemma_div_denominator,
    lemma_fundamental_div_mod,
    lemma_mod_bound,
};
use vstd::arithmetic::power2::{lemma2_to64, lemma_pow2_pos, lemma_pow2_unfold, pow2};
use crate::instruction::{views_of, CInstrView, CInstruction, InstrView, Instruction};
use crate::symbols::SymbolTable;
use crate::text::{contains_char, dec_u16, parse_u16, str_eq};

verus! {

/// Bit `k` of `v`: whether dividing `v` by 2^`k` leaves an odd number.
pub open spec fn bit_of(v: u16, k: int) -> bool {
    (v as int / pow2(k as nat) as int) % 2 == 1
}

/// The 16 bits of `v` as characters, most significant first.
pub open spec fn bits16(v: u16) -> Seq<char> {
    Seq::new(16, |i: int| if bit_of(v, 15 - i) { '1' } else { '0' })
}

/// The word an address instruction with operand `v` encodes to: the low 15
/// bits of `v`, under a zero high bit.
pub open spec fn a_word(v: u16) -> Seq<char> {
    bits16((v as int % 0x8000) as u16)
}

/// Writes the 16 bits of the low 15 bits of `v`, as `a_word` describes.
pub fn encode_a_word(v: u16) -> (r: String)
    ensures
        r@ == a_word(v),
{
    let m: u16 = v % 0x8000;
    let mut out = String::new();
    let mut p: u32 = 0x8000;
    let mut i: usize = 0;
    proof {
        lemma2_to64();
        assert(out@ =~= bits16(m).take(0));
    }
    while i < 16
        invariant
            0 <= i <= 16,
            m < 0x8000,
            i < 16 ==> p == pow2((15 - i) as nat),
            out@ == bits16(m).take(i as int),
        decreases 16 - i,
    {
        proof {
            lemma_pow2_pos((15 - i) as nat);
        }
        let bit = (m as u32 / p) % 2;
        let ghost before = out@;
        if bit == 1 {
            out.append("1");
        } else {
            out.append("0");
        }
        proof {
            reveal_strlit("1");
            reveal_strlit("0");
            assert(bit == 1 <==> bit_of(m, 15 - i));
            assert(bits16(m)[i as int] == (if bit_of(m, 15 - i) {
                '1'
            } else {
                '0'
            }));
            assert(bits16(m).take(i + 1) =~= bits16(m).take(i as int).push(bits16(m)[i as int]));
            assert(out@ =~= before.push(bits16(m)[i as int]));
            if i < 15 {
                lemma_pow2_unfold((15 - i) as nat);
            }
        }
        p = p / 2;
        i += 1;
    }
    proof {
        assert(bits16(m).take(16) =~= bits16(m));
    }
    out
}

/// The three `dest` bits, in order A, D, M: each is `'1'` exactly when the
/// corresponding letter occurs anywhere in the dest text.
pub open spec fn dest_bits(d: Seq<char>) -> Seq<char> {
    (if d.contains('A') {
        "1"@
    } else {
        "0"@
    }) + (if d.contains('D') {
        "1"@
    } else {
        "0"@
    }) + (if d.contains('M') {
        "1"@
    } else {
        "0"@
    })
}

/// Encodes a `dest` text, as `dest_bits` describes; the empty text stands
/// for an absent dest clause.
pub fn dest(text: &str) -> (r: String)
    ensures
        r@ == dest_bits(text@),
{
    let mut out = String::new();
    let a = if contains_char(text, 'A') {
        "1"
    } else {
        "0"
    };
    out.append(a);
    let d = if contains_char(text, 'D') {
        "1"
    } else {
        "0"
    };
    out.append(d);
    let m = if contains_char(text, 'M') {
        "1"
    } else {
        "0"
    };
    out.append(m);
    proof {
        assert(out@ =~= dest_bits(text@));
    }
    out
}

/// The three `jump` bits; any text other than the seven conditional-jump
/// mnemonics, the empty text included, means "no jump".
pub open spec fn jump_bits(j: Seq<char>) -> Seq<char> {
    if j == "JGT"@ {
        "001"@
    } else if j == "JEQ"@ {
        "010"@
    } else if j == "JGE"@ {
        "011"@
    } else if j == "JLT"@ {
        "100"@
    } else if j == "JNE"@ {
        "101"@
    } else if j == "JLE"@ {
        "110"@
    } else if j == "JMP"@ {
        "111"@
    } else {
        "000"@
    }
}

/// Encodes a `jump` text, as `jump_bits` describes.
pub fn jump(text: &str) -> (r: &str)
    ensures
        r@ == jump_bits(text@),
{
    if str_eq(text, "JGT") {
        "001"
    } else if str_eq(text, "JEQ") {
        "010"
    } else if str_eq(text, "JGE") {
        "011"
    } else if str_eq(text, "JLT") {
        "100"
    } else if str_eq(text, "JNE") {
        "101"
    } else if str_eq(text, "JLE") {
        "110"
    } else if str_eq(text, "JMP") {
        "111"
    } else {
        "000"
    }
}

/// The seven `comp` bits of a recognized comp mnemonic, or nothing for any
/// other text.
pub open spec fn comp_bits(c: Seq<char>) -> Option<Seq<char>> {
    if c == "0"@ {
        Some("0101010"@)
    } else if c == "1"@ {
        Some("0111111"@)
    } else if c == "-1"@ {
        Some("0111010"@)
    } else if c == "D"@ {
        Some("0001100"@)
    } else if c == "A"@ {
        Some("0110000"@)
    } else if c == "M"@ {
        Some("1110000"@)
    } else if c == "!D"@ {
        Some("0001101"@)
    } else if c == "!A"@ {
        Some("0110001"@)
    } else if c == "!M"@ {
        Some("1110001"@)
    } else if c == "-D"@ {
        Some("0001111"@)
    } else if c == "-A"@ {
        Some("0110011"@)
    } else if c == "-M"@ {
        Some("1110011"@)
    } else if c == "D+1"@ {
        Some("0011111"@)
    } else if c == "A+1"@ {
        Some("0110111"@)
    } else if c == "M+1"@ {
        Some("1110111"@)
    } else if c == "D-1"@ {
        Some("0001110"@)
    } else if c == "A-1"@ {
        Some("0110010"@)
    } else if c == "M-1"@ {
        Some("1110010"@)
    } else if c == "D+A"@ {
        Some("0000010"@)
    } else if c == "D+M"@ {
        Some("1000010"@)
    } else if c == "D-A"@ {
        Some("0010011"@)
    } else if c == "D-M"@ {
        Some("1010011"@)
    } else if c == "A-D"@ {
        Some("0000111"@)
    } else if c == "M-D"@ {
        Some("1000111"@)
    } else if c == "D&A"@ {
        Some("0000000"@)
    } else if c == "D&M"@ {
        Some("1000000"@)
    } else if c == "D|A"@ {
        Some("0010101"@)
    } else if c == "D|M"@ {
        Some("1010101"@)
    } else {
        None
    }
}

/// Encodes a `comp` mnemonic, as `comp_bits` describes; an unrecognized
/// mnemonic yields nothing and is a fatal error for the caller.
pub fn comp(text: &str) -> (r: Option<&str>)
    ensures
        r matches Some(b) ==> comp_bits(text@) == Some(b@),
        r is None <==> comp_bits(text@) is None,
{
    if str_eq(text, "0") {
        Some("0101010")
    } else if str_eq(text, "1") {
        Some("0111111")
    } else if str_eq(text, "-1") {
        Some("0111010")
    } else if str_eq(text, "D") {
        Some("0001100")
    } else if str_eq(text, "A") {
        Some("0110000")
    } else if str_eq(text, "M") {
        Some("1110000")
    } else if str_eq(text, "!D") {
        Some("0001101")
    } else if str_eq(text, "!A") {
        Some("0110001")
    } else if str_eq(text, "!M") {
        Some("1110001")
    } else if str_eq(text, "-D") {
        Some("0001111")
    } else if str_eq(text, "-A") {
        Some("0110011")
    } else if str_eq(text, "-M") {
        Some("1110011")
    } else if str_eq(text, "D+1") {
        Some("0011111")
    } else if str_eq(text, "A+1") {
        Some("0110111")
    } else if str_eq(text, "M+1") {
        Some("1110111")
    } else if str_eq(text, "D-1") {
        Some("0001110")
    } else if str_eq(text, "A-1") {
        Some("0110010")
    } else if str_eq(text, "M-1") {
        Some("1110010")
    } else if str_eq(text, "D+A") {
        Some("0000010")
    } else if str_eq(text, "D+M") {
        Some("1000010")
    } else if str_eq(text, "D-A") {
        Some("0010011")
    } else if str_eq(text, "D-M") {
        Some("1010011")
    } else if str_eq(text, "A-D") {
        Some("0000111")
    } else if str_eq(text, "M-D") {
        Some("1000111")
    } else if str_eq(text, "D&A") {
        Some("0000000")
    } else if str_eq(text, "D&M") {
        Some("1000000")
    } else if str_eq(text, "D|A") {
        Some("0010101")
    } else if str_eq(text, "D|M") {
        Some("1010101")
    } else {
        None
    }
}

/// A fatal assembly error, carrying the offending text.
#[derive(Debug)]
pub enum AsmError {
    /// A compute instruction whose comp mnemonic is not in the table.
    UnknownComp(String),
    /// An address reference that neither parses as a decimal literal nor is
    /// bound in the symbol table.
    UnresolvedSymbol(String),
    /// More instructions than the 16-bit address space can hold.
    ProgramTooLarge,
}

/// The mathematical shape of a fatal assembly error.
pub enum AsmErrorView {
    UnknownComp(Seq<char>),
    UnresolvedSymbol(Seq<char>),
    ProgramTooLarge,
}

impl View for AsmError {
    type V = AsmErrorView;

    open spec fn view(&self) -> AsmErrorView {
        match self {
            AsmError::UnknownComp(s) => AsmErrorView::UnknownComp(s@),
            AsmError::UnresolvedSymbol(s) => AsmErrorView::UnresolvedSymbol(s@),
            AsmError::ProgramTooLarge => AsmErrorView::ProgramTooLarge,
        }
    }
}

/// The text of an optional clause; absence stands for the empty text.
pub open spec fn opt_field(o: Option<Seq<char>>) -> Seq<char> {
    match o {
        Some(s) => s,
        None => Seq::empty(),
    }
}

/// The numeric operand of an address reference: the symbol read as a
/// decimal literal if possible, else its address in the table, if bound.
pub open spec fn a_value(sym: Seq<char>, m: Map<Seq<char>, u16>) -> Option<u16> {
    match dec_u16(sym) {
        Some(v) => Some(v),
        None => if m.contains_key(sym) {
            Some(m[sym])
        } else {
            None
        },
    }
}

/// The word a compute instruction encodes to: `111`, then the comp, dest
/// and jump bits; nothing when the comp mnemonic is unknown.
pub open spec fn c_word(c: CInstrView) -> Option<Seq<char>> {
    match comp_bits(c.comp) {
        Some(cb) => Some("111"@ + cb + dest_bits(opt_field(c.dest)) + jump_bits(opt_field(c.jump))),
        None => None,
    }
}

/// What one instruction contributes to the output under table `m`: no word
/// for a label definition, a word or a fatal error otherwise.
pub open spec fn encode_one(i: InstrView, m: Map<Seq<char>, u16>) -> Option<
    Result<Seq<char>, AsmErrorView>,
> {
    match i {
        InstrView::L(_) => None,
        InstrView::A(sym) => Some(
            match a_value(sym, m) {
                Some(v) => Ok(a_word(v)),
                None => Err(AsmErrorView::UnresolvedSymbol(sym)),
            },
        ),
        InstrView::C(c) => Some(
            match c_word(c) {
                Some(w) => Ok(w),
                None => Err(AsmErrorView::UnknownComp(c.comp)),
            },
        ),
    }
}

/// The words that `is` encodes to under table `m`, in order, or the first
/// fatal error.
pub open spec fn encode_seq(is: Seq<InstrView>, m: Map<Seq<char>, u16>) -> Result<
    Seq<Seq<char>>,
    AsmErrorView,
>
    decreases is.len(),
{
    if is.len() == 0 {
        Ok(Seq::empty())
    } else {
        match encode_one(is.first(), m) {
            None => encode_seq(is.skip(1), m),
            Some(Err(e)) => Err(e),
            Some(Ok(w)) => match encode_seq(is.skip(1), m) {
                Ok(ws) => Ok(seq![w] + ws),
                Err(e) => Err(e),
            },
        }
    }
}

/// `r` with the already-encoded words `pre` in front of its words.
pub open spec fn encode_prepend(
    pre: Seq<Seq<char>>,
    r: Result<Seq<Seq<char>>, AsmErrorView>,
) -> Result<Seq<Seq<char>>, AsmErrorView> {
    match r {
        Ok(ws) => Ok(pre + ws),
        Err(e) => Err(e),
    }
}

/// Encodes one address reference under `table`.
pub fn encode_a(sym: &str, table: &SymbolTable) -> (r: Result<String, AsmError>)
    ensures
        r matches Ok(w) ==> a_value(sym@, table@) matches Some(v) && w@ == a_word(v),
        r matches Err(e) ==> a_value(sym@, table@) is None && e@
            == AsmErrorView::UnresolvedSymbol(sym@),
{
    match parse_u16(sym) {
        Some(v) => Ok(encode_a_word(v)),
        None => match table.get(sym) {
            Some(v) => Ok(encode_a_word(v)),
            None => Err(AsmError::UnresolvedSymbol(sym.to_owned())),
        },
    }
}

/// Encodes one compute instruction.
pub fn encode_c(c: &CInstruction) -> (r: Result<String, AsmError>)
    ensures
        r matches Ok(w) ==> c_word(c@) == Some(w@),
        r matches Err(e) ==> c_word(c@) is None && e@ == AsmErrorView::UnknownComp(c.comp@),
{
    let cb = match comp(c.comp.as_str()) {
        Some(b) => b,
        None => {
            return Err(AsmError::UnknownComp(c.comp.clone()));
        },
    };
    let dtext = match &c.dest {
        Some(d) => d.as_str(),
        None => "",
    };
    let jtext = match &c.jump {
        Some(j) => j.as_str(),
        None => "",
    };
    let db = dest(dtext);
    let jb = jump(jtext);
    let mut w = String::from_str("111");
    w.append(cb);
    w.append(db.as_str());
    w.append(jb);
    proof {
        reveal_strlit("");
        assert(""@ =~= Seq::<char>::empty());
        assert(dtext@ == opt_field(c@.dest));
        assert(jtext@ == opt_field(c@.jump));
    }
    Ok(w)
}

/// Encodes the whole instruction sequence under the completed table, as
/// `encode_seq` describes: one word per address reference or compute
/// instruction, in source order, or the first fatal error.
pub fn encode(instrs: &Vec<Instruction>, table: &SymbolTable) -> (r: Result<Vec<String>, AsmError>)
    ensures
        r matches Ok(words) ==> encode_seq(views_of(instrs@), table@) == Ok::<
            Seq<Seq<char>>,
            AsmErrorView,
        >(words@.map_values(|w: String| w@)),
        r matches Err(e) ==> encode_seq(views_of(instrs@), table@) == Err::<
            Seq<Seq<char>>,
            AsmErrorView,
        >(e@),
{
    let ghost full = views_of(instrs@);
    let mut out: Vec<String> = Vec::new();
    let mut idx: usize = 0;
    proof {
        assert(full.skip(0) =~= full);
        assert(out@.map_values(|w: String| w@) =~= Seq::<Seq<char>>::empty());
    }
    while idx < instrs.len()
        invariant
            0 <= idx <= instrs@.len(),
            full == views_of(instrs@),
            encode_seq(full, table@) == encode_prepend(
                out@.map_values(|w: String| w@),
                encode_seq(full.skip(idx as int), table@),
            ),
        decreases instrs@.len() - idx,
    {
        let ghost rest = full.skip(idx as int);
        let ghost sofar = out@.map_values(|w: String| w@);
        proof {
            assert(rest.first() == instrs@[idx as int]@);
            assert(rest.skip(1) =~= full.skip(idx + 1));
        }
        let word = match &instrs[idx] {
            Instruction::L(_) => None,
            Instruction::A(sym) => {
                match encode_a(sym.as_str(), table) {
                    Ok(w) => Some(w),
                    Err(e) => {
                        return Err(e);
                    },
                }
            },
            Instruction::C(c) => {
                match encode_c(c) {
                    Ok(w) => Some(w),
                    Err(e) => {
                        return Err(e);
                    },
                }
            },
        };
        match word {
            Some(w) => {
                let ghost wv = w@;
                out.push(w);
                proof {
                    assert(out@.map_values(|x: String| x@) =~= sofar.push(wv));
                    match encode_seq(full.skip(idx + 1), table@) {
                        Ok(ws) => {
                            assert(sofar.push(wv) + ws =~= sofar + (seq![wv] + ws));
                        },
                        Err(_) => {},
                    }
                }
            },
            None => {},
        }
        idx += 1;
    }
    proof {
        assert(full.skip(instrs@.len() as int) =~= Seq::<InstrView>::empty());
        assert(out@.map_values(|w: String| w@) + Seq::<Seq<char>>::empty() =~= out@.map_values(
            |w: String| w@,
        ));
    }
    Ok(out)
}

/// The numeric value of a word of `'0'`/`'1'` characters, read in binary,
/// most significant character first.
pub open spec fn bits_value(w: Seq<char>) -> int
    decreases w.len(),
{
    if w.len() == 0 {
        0
    } else {
        bits_value(w.drop_last()) * 2 + (if w.last() == '1' {
            1int
        } else {
            0int
        })
    }
}

proof fn lemma_bits16_prefix_value(v: u16, k: int)
    requires
        0 <= k <= 16,
    ensures
        bits_value(bits16(v).take(k)) == v as int / pow2((16 - k) as nat) as int,
    decreases k,
{
    if k == 0 {
        lemma2_to64();
        lemma_basic_div(v as int, pow2(16) as int);
        assert(bits16(v).take(0) =~= Seq::<char>::empty());
    } else {
        lemma_bits16_prefix_value(v, k - 1);
        let e = (16 - k) as nat;
        lemma_pow2_pos(e);
        lemma_pow2_unfold(e + 1);
        lemma_div_denominator(v as int, pow2(e) as int, 2);
        let q = v as int / pow2(e) as int;
        lemma_fundamental_div_mod(q, 2);
        lemma_mod_bound(q, 2);
        assert(bits16(v).take(k).drop_last() =~= bits16(v).take(k - 1));
        assert(bits16(v).take(k).last() == bits16(v)[k - 1]);
    }
}

proof fn lemma_bits_value_leading_zero(w: Seq<char>)
    requires
        w.len() > 0,
        w[0] == '0',
    ensures
        bits_value(w) == bits_value(w.skip(1)),
    decreases w.len(),
{
    if w.len() == 1 {
        assert(w.skip(1) =~= Seq::<char>::empty());
        assert(w.drop_last() =~= Seq::<char>::empty());
    } else {
        lemma_bits_value_leading_zero(w.drop_last());
        assert(w.skip(1).drop_last() =~= w.drop_last().skip(1));
        assert(w.skip(1).last() == w.last());
    }
}

/// The word of an address instruction with operand `n` has 16 characters,
/// a zero high bit, and low 15 bits reading `n mod 32768` in binary.
pub proof fn lemma_address_word(n: u16)
    ensures
        a_word(n).len() == 16,
        a_word(n)[0] == '0',
        bits_value(a_word(n).skip(1)) == n as int % 32768,
{
    let m = (n as int % 0x8000) as u16;
    lemma_mod_bound(n as int, 0x8000);
    lemma_bits16_prefix_value(m, 16);
    lemma2_to64();
    lemma_div_basics(m as int);
    assert(bits16(m).take(16) =~= bits16(m));
    assert(bits_value(bits16(m)) == m as int);
    lemma_basic_div(m as int, pow2(15) as int);
    assert(bits16(m)[0] == '0');
    lemma_bits_value_leading_zero(bits16(m));
}

/// Each `dest` bit is `'1'` exactly when its letter occurs in the text:
/// bit A first, then D, then M.
pub proof fn lemma_dest_bits(d: Seq<char>)
    ensures
        dest_bits(d).len() == 3,
        dest_bits(d)[0] == (if d.contains('A') {
            '1'
        } else {
            '0'
        }),
        dest_bits(d)[1] == (if d.contains('D') {
            '1'
        } else {
            '0'
        }),
        dest_bits(d)[2] == (if d.contains('M') {
            '1'
        } else {
            '0'
        }),
{
    reveal_strlit("1");
    reveal_strlit("0");
}

/// Two dest texts with the same letter membership encode identically,
/// whatever the order or repetition of their letters.
pub proof fn lemma_dest_bits_membership(d1: Seq<char>, d2: Seq<char>)
    requires
        d1.contains('A') == d2.contains('A'),
        d1.contains('D') == d2.contains('D'),
        d1.contains('M') == d2.contains('M'),
    ensures
        dest_bits(d1) == dest_bits(d2),
{
}

/// An address instruction whose symbol is the decimal literal `n` encodes,
/// under any table, to a 16-character word with a zero high bit whose low
/// 15 bits read `n mod 32768` in binary.
pub proof fn lemma_literal_address_instruction(sym: Seq<char>, m: Map<Seq<char>, u16>, n: u16)
    requires
        dec_u16(sym) == Some(n),
    ensures
        encode_one(InstrView::A(sym), m) == Some(Ok::<Seq<char>, AsmErrorView>(a_word(n))),
        a_word(n).len() == 16,
        a_word(n)[0] == '0',
        bits_value(a_word(n).skip(1)) == n as int % 32768,
{
    lemma_address_word(n);
}

/// Encoding a sequence whose every non-literal address symbol is bound can
/// fail only on an unknown comp mnemonic.
pub proof fn lemma_encode_no_unresolved(is: Seq<InstrView>, m: Map<Seq<char>, u16>)
    requires
        forall|j: int|
            0 <= j < is.len() ==> (#[trigger] is[j] matches InstrView::A(sym) ==> (dec_u16(sym)
                is Some || m.contains_key(sym))),
    ensures
        encode_seq(is, m) matches Err(e) ==> e is UnknownComp,
    decreases is.len(),
{
    if is.len() > 0 {
        assert(forall|j: int| 0 <= j < is.skip(1).len() ==> is.skip(1)[j] == is[j + 1]);
        assert(is[0] == is.first());
        lemma_encode_no_unresolved(is.skip(1), m);
    }
}

} // verus!
