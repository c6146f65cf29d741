//! The symbol table and the two resolution passes: labels are bound to the
//! address of the next real instruction, then each new variable symbol is
//! bound to the next free data address, starting at 16.

use vstd::prelude::*;
use vstd::string::*;
use crate::instruction::{views_of, InstrView, Instruction};
use crate::text::{dec_u16, parse_u16, str_eq};

verus! {

/// The largest number of instructions one program may hold: the data
/// addresses a longer program could assign would overrun 16 bits.
pub const MAX_INSTRUCTIONS: usize = 65519;

/// The map that a sequence of symbol-table entries denotes; a later entry
/// for the same name wins.
pub open spec fn entries_map(s: Seq<(String, u16)>) -> Map<Seq<char>, u16>
    decreases s.len(),
{
    if s.len() == 0 {
        Map::empty()
    } else {
        entries_map(s.drop_last()).insert(s.last().0@, s.last().1)
    }
}

/// The architecture's predefined constants.
pub open spec fn predefined_map() -> Map<Seq<char>, u16> {
    Map::<Seq<char>, u16>::empty().insert("R0"@, 0).insert("R1"@, 1).insert("R2"@, 2).insert(
        "R3"@,
        3,
    ).insert("R4"@, 4).insert("R5"@, 5).insert("R6"@, 6).insert("R7"@, 7).insert("R8"@, 8).insert(
        "R9"@,
        9,
    ).insert("R10"@, 10).insert("R11"@, 11).insert("R12"@, 12).insert("R13"@, 13).insert(
        "R14"@,
        14,
    ).insert("R15"@, 15).insert("SP"@, 0).insert("LCL"@, 1).insert("ARG"@, 2).insert(
        "THIS"@,
        3,
    ).insert("THAT"@, 4).insert("SCREEN"@, 16384).insert("KBD"@, 24576)
}

/// The address of a predefined constant, or nothing for any other symbol.
pub open spec fn predefined_addr(s: Seq<char>) -> Option<u16> {
    if s == "R0"@ {
        Some(0u16)
    } else if s == "R1"@ {
        Some(1u16)
    } else if s == "R2"@ {
        Some(2u16)
    } else if s == "R3"@ {
        Some(3u16)
    } else if s == "R4"@ {
        Some(4u16)
    } else if s == "R5"@ {
        Some(5u16)
    } else if s == "R6"@ {
        Some(6u16)
    } else if s == "R7"@ {
        Some(7u16)
    } else if s == "R8"@ {
        Some(8u16)
    } else if s == "R9"@ {
        Some(9u16)
    } else if s == "R10"@ {
        Some(10u16)
    } else if s == "R11"@ {
        Some(11u16)
    } else if s == "R12"@ {
        Some(12u16)
    } else if s == "R13"@ {
        Some(13u16)
    } else if s == "R14"@ {
        Some(14u16)
    } else if s == "R15"@ {
        Some(15u16)
    } else if s == "SP"@ {
        Some(0u16)
    } else if s == "LCL"@ {
        Some(1u16)
    } else if s == "ARG"@ {
        Some(2u16)
    } else if s == "THIS"@ {
        Some(3u16)
    } else if s == "THAT"@ {
        Some(4u16)
    } else if s == "SCREEN"@ {
        Some(16384u16)
    } else if s == "KBD"@ {
        Some(24576u16)
    } else {
        None
    }
}

/// The address a predefined constant resolves to, or `free_address` for a
/// symbol that is not predefined.
pub fn resolve_symbol_to_address(sym: &str, free_address: u16) -> (r: u16)
    ensures
        r == match predefined_addr(sym@) {
            Some(a) => a,
            None => free_address,
        },
{
    if str_eq(sym, "R0") {
        0
    } else if str_eq(sym, "R1") {
        1
    } else if str_eq(sym, "R2") {
        2
    } else if str_eq(sym, "R3") {
        3
    } else if str_eq(sym, "R4") {
        4
    } else if str_eq(sym, "R5") {
        5
    } else if str_eq(sym, "R6") {
        6
    } else if str_eq(sym, "R7") {
        7
    } else if str_eq(sym, "R8") {
        8
    } else if str_eq(sym, "R9") {
        9
    } else if str_eq(sym, "R10") {
        10
    } else if str_eq(sym, "R11") {
        11
    } else if str_eq(sym, "R12") {
        12
    } else if str_eq(sym, "R13") {
        13
    } else if str_eq(sym, "R14") {
        14
    } else if str_eq(sym, "R15") {
        15
    } else if str_eq(sym, "SP") {
        0
    } else if str_eq(sym, "LCL") {
        1
    } else if str_eq(sym, "ARG") {
        2
    } else if str_eq(sym, "THIS") {
        3
    } else if str_eq(sym, "THAT") {
        4
    } else if str_eq(sym, "SCREEN") {
        16384
    } else if str_eq(sym, "KBD") {
        24576
    } else {
        free_address
    }
}

/// The predefined table and the predefined-address lookup agree: a symbol
/// is in the fresh table exactly when it is a predefined constant, and at
/// the same address.
#[verifier::rlimit(50)]
pub proof fn lemma_predefined_map_addr(s: Seq<char>)
    ensures
        predefined_map().contains_key(s) <==> predefined_addr(s) is Some,
        predefined_addr(s) matches Some(a) ==> predefined_map()[s] == a,
{
    reveal_strlit("R0");
    reveal_strlit("R1");
    reveal_strlit("R2");
    reveal_strlit("R3");
    reveal_strlit("R4");
    reveal_strlit("R5");
    reveal_strlit("R6");
    reveal_strlit("R7");
    reveal_strlit("R8");
    reveal_strlit("R9");
    reveal_strlit("R10");
    reveal_strlit("R11");
    reveal_strlit("R12");
    reveal_strlit("R13");
    reveal_strlit("R14");
    reveal_strlit("R15");
    reveal_strlit("SP");
    reveal_strlit("LCL");
    reveal_strlit("ARG");
    reveal_strlit("THIS");
    reveal_strlit("THAT");
    reveal_strlit("SCREEN");
    reveal_strlit("KBD");
    assert("R0"@.len() == 2);
    assert("R0"@[0] == 'R');
    assert("R0"@[1] == '0');
    assert("R1"@.len() == 2);
    assert("R1"@[0] == 'R');
    assert("R1"@[1] == '1');
    assert("R2"@.len() == 2);
    assert("R2"@[0] == 'R');
    assert("R2"@[1] == '2');
    assert("R3"@.len() == 2);
    assert("R3"@[0] == 'R');
    assert("R3"@[1] == '3');
    assert("R4"@.len() == 2);
    assert("R4"@[0] == 'R');
    assert("R4"@[1] == '4');
    assert("R5"@.len() == 2);
    assert("R5"@[0] == 'R');
    assert("R5"@[1] == '5');
    assert("R6"@.len() == 2);
    assert("R6"@[0] == 'R');
    assert("R6"@[1] == '6');
    assert("R7"@.len() == 2);
    assert("R7"@[0] == 'R');
    assert("R7"@[1] == '7');
    assert("R8"@.len() == 2);
    assert("R8"@[0] == 'R');
    assert("R8"@[1] == '8');
    assert("R9"@.len() == 2);
    assert("R9"@[0] == 'R');
    assert("R9"@[1] == '9');
    assert("R10"@.len() == 3);
    assert("R10"@[0] == 'R');
    assert("R10"@[1] == '1');
    assert("R10"@[2] == '0');
    assert("R11"@.len() == 3);
    assert("R11"@[0] == 'R');
    assert("R11"@[1] == '1');
    assert("R11"@[2] == '1');
    assert("R12"@.len() == 3);
    assert("R12"@[0] == 'R');
    assert("R12"@[1] == '1');
    assert("R12"@[2] == '2');
    assert("R13"@.len() == 3);
    assert("R13"@[0] == 'R');
    assert("R13"@[1] == '1');
    assert("R13"@[2] == '3');
    assert("R14"@.len() == 3);
    assert("R14"@[0] == 'R');
    assert("R14"@[1] == '1');
    assert("R14"@[2] == '4');
    assert("R15"@.len() == 3);
    assert("R15"@[0] == 'R');
    assert("R15"@[1] == '1');
    assert("R15"@[2] == '5');
    assert("SP"@.len() == 2);
    assert("SP"@[0] == 'S');
    assert("SP"@[1] == 'P');
    assert("LCL"@.len() == 3);
    assert("LCL"@[0] == 'L');
    assert("LCL"@[1] == 'C');
    assert("LCL"@[2] == 'L');
    assert("ARG"@.len() == 3);
    assert("ARG"@[0] == 'A');
    assert("ARG"@[1] == 'R');
    assert("ARG"@[2] == 'G');
    assert("THIS"@.len() == 4);
    assert("THIS"@[0] == 'T');
    assert("THIS"@[1] == 'H');
    assert("THIS"@[2] == 'I');
    assert("THIS"@[3] == 'S');
    assert("THAT"@.len() == 4);
    assert("THAT"@[0] == 'T');
    assert("THAT"@[1] == 'H');
    assert("THAT"@[2] == 'A');
    assert("THAT"@[3] == 'T');
    assert("SCREEN"@.len() == 6);
    assert("SCREEN"@[0] == 'S');
    assert("SCREEN"@[1] == 'C');
    assert("SCREEN"@[2] == 'R');
    assert("SCREEN"@[3] == 'E');
    assert("SCREEN"@[4] == 'E');
    assert("SCREEN"@[5] == 'N');
    assert("KBD"@.len() == 3);
    assert("KBD"@[0] == 'K');
    assert("KBD"@[1] == 'B');
    assert("KBD"@[2] == 'D');
}

proof fn lemma_entries_map_no_key_from(s: Seq<(String, u16)>, i: int, k: Seq<char>)
    requires
        0 <= i <= s.len(),
        forall|j: int| i <= j < s.len() ==> (#[trigger] s[j].0)@ != k,
    ensures
        entries_map(s).contains_key(k) == entries_map(s.take(i)).contains_key(k),
        entries_map(s).contains_key(k) ==> entries_map(s)[k] == entries_map(s.take(i))[k],
    decreases s.len() - i,
{
    if i < s.len() {
        lemma_entries_map_no_key_from(s.drop_last(), i, k);
        assert(s.drop_last().take(i) =~= s.take(i));
        assert(s.last().0@ != k);
    } else {
        assert(s.take(i) =~= s);
    }
}

/// A mapping from symbol name to 16-bit address.  It grows monotonically:
/// a binding, once made, is only ever replaced explicitly, never removed.
pub struct SymbolTable {
    entries: Vec<(String, u16)>,
}

impl View for SymbolTable {
    type V = Map<Seq<char>, u16>;

    closed spec fn view(&self) -> Map<Seq<char>, u16> {
        entries_map(self.entries@)
    }
}

impl SymbolTable {
    /// A table holding exactly the predefined constants.
    pub fn new() -> (r: SymbolTable)
        ensures
            r@ == predefined_map(),
    {
        let mut t = SymbolTable { entries: Vec::new() };
        proof {
            assert(t@ =~= Map::<Seq<char>, u16>::empty());
        }
        t.set("R0", 0);
        t.set("R1", 1);
        t.set("R2", 2);
        t.set("R3", 3);
        t.set("R4", 4);
        t.set("R5", 5);
        t.set("R6", 6);
        t.set("R7", 7);
        t.set("R8", 8);
        t.set("R9", 9);
        t.set("R10", 10);
        t.set("R11", 11);
        t.set("R12", 12);
        t.set("R13", 13);
        t.set("R14", 14);
        t.set("R15", 15);
        t.set("SP", 0);
        t.set("LCL", 1);
        t.set("ARG", 2);
        t.set("THIS", 3);
        t.set("THAT", 4);
        t.set("SCREEN", 16384);
        t.set("KBD", 24576);
        t
    }

    /// Binds `name` to `addr`, replacing any earlier binding.
    pub fn set(&mut self, name: &str, addr: u16)
        ensures
            final(self)@ == old(self)@.insert(name@, addr),
    {
        self.entries.push((name.to_owned(), addr));
        proof {
            assert(self.entries@.drop_last() =~= old(self).entries@);
        }
    }

    /// The address bound to `name`, if any.
    pub fn get(&self, name: &str) -> (r: Option<u16>)
        ensures
            r matches Some(a) ==> self@.contains_key(name@) && self@[name@] == a,
            r is None ==> !self@.contains_key(name@),
    {
        let n = self.entries.len();
        let mut i: usize = n;
        while i > 0
            invariant
                0 <= i <= n,
                n == self.entries@.len(),
                forall|j: int| i <= j < n ==> (#[trigger] self.entries@[j].0)@ != name@,
            decreases i,
        {
            i -= 1;
            let hit = str_eq(self.entries[i].0.as_str(), name);
            if hit {
                proof {
                    lemma_entries_map_no_key_from(self.entries@, i + 1, name@);
                    assert(self.entries@.take(i + 1).drop_last() =~= self.entries@.take(i as int));
                    assert(self.entries@.take(i + 1).last() == self.entries@[i as int]);
                }
                return Some(self.entries[i].1);
            }
        }
        proof {
            lemma_entries_map_no_key_from(self.entries@, 0, name@);
            assert(self.entries@.take(0) =~= Seq::<(String, u16)>::empty());
        }
        None
    }

    /// Whether `name` is bound.
    pub fn contains(&self, name: &str) -> (r: bool)
        ensures
            r == self@.contains_key(name@),
    {
        self.get(name).is_some()
    }
}

/// The number of ROM address slots that `is` occupies: every instruction
/// but a label definition occupies one.
pub open spec fn rom_count(is: Seq<InstrView>) -> int
    decreases is.len(),
{
    if is.len() == 0 {
        0
    } else {
        (if is.first() is L {
            0int
        } else {
            1int
        }) + rom_count(is.skip(1))
    }
}

/// The table after the label pass: walking `is` with the ROM address
/// counter at `counter`, every label definition binds its symbol to the
/// current counter, and every other instruction advances the counter.
pub open spec fn label_pass_map(
    is: Seq<InstrView>,
    m: Map<Seq<char>, u16>,
    counter: int,
) -> Map<Seq<char>, u16>
    decreases is.len(),
{
    if is.len() == 0 {
        m
    } else {
        match is.first() {
            InstrView::L(sym) => label_pass_map(is.skip(1), m.insert(sym, counter as u16), counter),
            _ => label_pass_map(is.skip(1), m, counter + 1),
        }
    }
}

/// The table after the variable pass: walking `is` with the free data
/// address counter at `next`, every address reference whose symbol is
/// neither a decimal literal nor already bound binds it to the counter and
/// advances the counter.
pub open spec fn var_pass_map(
    is: Seq<InstrView>,
    m: Map<Seq<char>, u16>,
    next: int,
) -> Map<Seq<char>, u16>
    decreases is.len(),
{
    if is.len() == 0 {
        m
    } else {
        match is.first() {
            InstrView::A(sym) => if dec_u16(sym) is Some || m.contains_key(sym) {
                var_pass_map(is.skip(1), m, next)
            } else {
                var_pass_map(is.skip(1), m.insert(sym, next as u16), next + 1)
            },
            _ => var_pass_map(is.skip(1), m, next),
        }
    }
}

/// The label pass, as `label_pass_map` describes, with the counter at 0.
pub fn label_pass(instrs: &Vec<Instruction>, table: &mut SymbolTable)
    requires
        instrs@.len() <= MAX_INSTRUCTIONS,
    ensures
        final(table)@ == label_pass_map(views_of(instrs@), old(table)@, 0),
{
    let ghost full = views_of(instrs@);
    let mut counter: u16 = 0;
    let mut idx: usize = 0;
    proof {
        assert(full.skip(0) =~= full);
    }
    while idx < instrs.len()
        invariant
            0 <= idx <= instrs@.len() <= MAX_INSTRUCTIONS,
            counter <= idx,
            full == views_of(instrs@),
            label_pass_map(full, old(table)@, 0) == label_pass_map(
                full.skip(idx as int),
                table@,
                counter as int,
            ),
        decreases instrs@.len() - idx,
    {
        let ghost rest = full.skip(idx as int);
        proof {
            assert(rest.first() == instrs@[idx as int]@);
            assert(rest.skip(1) =~= full.skip(idx + 1));
        }
        match &instrs[idx] {
            Instruction::L(sym) => {
                table.set(sym.as_str(), counter);
            },
            _ => {
                counter += 1;
            },
        }
        idx += 1;
    }
    proof {
        assert(full.skip(instrs@.len() as int) =~= Seq::<InstrView>::empty());
    }
}

/// The variable pass, as `var_pass_map` describes, with the counter at 16.
pub fn variable_pass(instrs: &Vec<Instruction>, table: &mut SymbolTable)
    requires
        instrs@.len() <= MAX_INSTRUCTIONS,
    ensures
        final(table)@ == var_pass_map(views_of(instrs@), old(table)@, 16),
{
    let ghost full = views_of(instrs@);
    let mut next_free: u16 = 16;
    let mut idx: usize = 0;
    proof {
        assert(full.skip(0) =~= full);
    }
    while idx < instrs.len()
        invariant
            0 <= idx <= instrs@.len() <= MAX_INSTRUCTIONS,
            16 <= next_free <= 16 + idx,
            full == views_of(instrs@),
            var_pass_map(full, old(table)@, 16) == var_pass_map(
                full.skip(idx as int),
                table@,
                next_free as int,
            ),
        decreases instrs@.len() - idx,
    {
        let ghost rest = full.skip(idx as int);
        proof {
            assert(rest.first() == instrs@[idx as int]@);
            assert(rest.skip(1) =~= full.skip(idx + 1));
        }
        match &instrs[idx] {
            Instruction::A(sym) => {
                if parse_u16(sym.as_str()).is_none() && !table.contains(sym.as_str()) {
                    table.set(sym.as_str(), next_free);
                    next_free += 1;
                }
            },
            _ => {},
        }
        idx += 1;
    }
    proof {
        assert(full.skip(instrs@.len() as int) =~= Seq::<InstrView>::empty());
    }
}

proof fn lemma_rom_count_nonneg(is: Seq<InstrView>)
    ensures
        rom_count(is) >= 0,
    decreases is.len(),
{
    if is.len() > 0 {
        lemma_rom_count_nonneg(is.skip(1));
    }
}

/// The label pass never disturbs the binding of a symbol that no label
/// definition in the walked sequence names.
pub proof fn lemma_label_pass_preserves(
    is: Seq<InstrView>,
    m: Map<Seq<char>, u16>,
    counter: int,
    k: Seq<char>,
)
    requires
        m.contains_key(k),
        forall|j: int| 0 <= j < is.len() ==> is[j] != InstrView::L(k),
    ensures
        label_pass_map(is, m, counter).contains_key(k),
        label_pass_map(is, m, counter)[k] == m[k],
    decreases is.len(),
{
    if is.len() > 0 {
        assert(forall|j: int| 0 <= j < is.skip(1).len() ==> is.skip(1)[j] == is[j + 1]);
        match is.first() {
            InstrView::L(sym) => {
                assert(is[0] != InstrView::L(k));
                lemma_label_pass_preserves(is.skip(1), m.insert(sym, counter as u16), counter, k);
            },
            _ => {
                lemma_label_pass_preserves(is.skip(1), m, counter + 1, k);
            },
        }
    }
}

/// A label is bound to the ROM address of the instruction that follows its
/// (last) definition: the counter's start plus the ROM slots occupied
/// before the definition.  A label defined at the very end is bound to the
/// total ROM slot count.
pub proof fn lemma_label_address(
    is: Seq<InstrView>,
    m: Map<Seq<char>, u16>,
    counter: int,
    i: int,
    sym: Seq<char>,
)
    requires
        0 <= i < is.len(),
        is[i] == InstrView::L(sym),
        forall|j: int| i < j < is.len() ==> is[j] != InstrView::L(sym),
        0 <= counter,
        counter + rom_count(is) <= 0xFFFF,
    ensures
        label_pass_map(is, m, counter).contains_key(sym),
        label_pass_map(is, m, counter)[sym] as int == counter + rom_count(is.take(i)),
    decreases is.len(),
{
    lemma_rom_count_nonneg(is);
    lemma_rom_count_nonneg(is.skip(1));
    assert(forall|j: int| 0 <= j < is.skip(1).len() ==> is.skip(1)[j] == is[j + 1]);
    if i == 0 {
        let m1 = m.insert(sym, counter as u16);
        lemma_label_pass_preserves(is.skip(1), m1, counter, sym);
        assert(rom_count(is.take(0)) == 0) by {
            assert(is.take(0) =~= Seq::<InstrView>::empty());
        }
    } else {
        assert(is.take(i).skip(1) =~= is.skip(1).take(i - 1));
        assert(is.take(i).first() == is[0]);
        match is.first() {
            InstrView::L(s0) => {
                lemma_label_address(is.skip(1), m.insert(s0, counter as u16), counter, i - 1, sym);
            },
            _ => {
                lemma_label_address(is.skip(1), m, counter + 1, i - 1, sym);
            },
        }
    }
}

/// The variable pass never disturbs an existing binding.
pub proof fn lemma_var_pass_preserves(
    is: Seq<InstrView>,
    m: Map<Seq<char>, u16>,
    next: int,
    k: Seq<char>,
)
    requires
        m.contains_key(k),
    ensures
        var_pass_map(is, m, next).contains_key(k),
        var_pass_map(is, m, next)[k] == m[k],
    decreases is.len(),
{
    if is.len() > 0 {
        match is.first() {
            InstrView::A(sym) => {
                if dec_u16(sym) is Some || m.contains_key(sym) {
                    lemma_var_pass_preserves(is.skip(1), m, next, k);
                } else {
                    lemma_var_pass_preserves(is.skip(1), m.insert(sym, next as u16), next + 1, k);
                }
            },
            _ => {
                lemma_var_pass_preserves(is.skip(1), m, next, k);
            },
        }
    }
}

/// After the variable pass, every address symbol of the walked sequence
/// that is not a decimal literal is bound.
pub proof fn lemma_var_pass_resolves(
    is: Seq<InstrView>,
    m: Map<Seq<char>, u16>,
    next: int,
    i: int,
    sym: Seq<char>,
)
    requires
        0 <= i < is.len(),
        is[i] == InstrView::A(sym),
        dec_u16(sym) is None,
    ensures
        var_pass_map(is, m, next).contains_key(sym),
    decreases is.len(),
{
    assert(forall|j: int| 0 <= j < is.skip(1).len() ==> is.skip(1)[j] == is[j + 1]);
    match is.first() {
        InstrView::A(s0) => {
            if dec_u16(s0) is Some || m.contains_key(s0) {
                if i == 0 {
                    lemma_var_pass_preserves(is.skip(1), m, next, sym);
                } else {
                    lemma_var_pass_resolves(is.skip(1), m, next, i - 1, sym);
                }
            } else {
                let m1 = m.insert(s0, next as u16);
                if i == 0 {
                    lemma_var_pass_preserves(is.skip(1), m1, next + 1, sym);
                } else {
                    lemma_var_pass_resolves(is.skip(1), m1, next + 1, i - 1, sym);
                }
            }
        },
        _ => {
            lemma_var_pass_resolves(is.skip(1), m, next, i - 1, sym);
        },
    }
}

/// The distinct new variable symbols of `is`, in first-occurrence order,
/// given that the symbols in `ks` are already bound.
pub open spec fn new_vars(is: Seq<InstrView>, ks: Set<Seq<char>>) -> Seq<Seq<char>>
    decreases is.len(),
{
    if is.len() == 0 {
        Seq::empty()
    } else {
        match is.first() {
            InstrView::A(sym) => if dec_u16(sym) is None && !ks.contains(sym) {
                seq![sym] + new_vars(is.skip(1), ks.insert(sym))
            } else {
                new_vars(is.skip(1), ks)
            },
            _ => new_vars(is.skip(1), ks),
        }
    }
}

/// Variables are bound to consecutive addresses from the counter's start,
/// one per distinct new symbol, in first-occurrence order: the `k`-th new
/// variable symbol is bound to `next + k`.
pub proof fn lemma_variable_addresses(is: Seq<InstrView>, m: Map<Seq<char>, u16>, next: int, k: int)
    requires
        0 <= k < new_vars(is, m.dom()).len(),
        0 <= next,
        next + new_vars(is, m.dom()).len() <= 0x10000,
    ensures
        var_pass_map(is, m, next).contains_key(new_vars(is, m.dom())[k]),
        var_pass_map(is, m, next)[new_vars(is, m.dom())[k]] as int == next + k,
    decreases is.len(),
{
    match is.first() {
        InstrView::A(sym) => {
            if dec_u16(sym) is None && !m.dom().contains(sym) {
                let m1 = m.insert(sym, next as u16);
                assert(m1.dom() =~= m.dom().insert(sym));
                if k == 0 {
                    lemma_var_pass_preserves(is.skip(1), m1, next + 1, sym);
                } else {
                    lemma_variable_addresses(is.skip(1), m1, next + 1, k - 1);
                }
            } else {
                lemma_variable_addresses(is.skip(1), m, next, k);
            }
        },
        _ => {
            lemma_variable_addresses(is.skip(1), m, next, k);
        },
    }
}

} // verus!
